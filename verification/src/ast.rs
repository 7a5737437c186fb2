use vstd::prelude::*;

verus! {

broadcast use vstd::std_specs::vec::group_vec_axioms;

/// An attribute as written on an element: optional namespace prefix, local name, raw value.
pub struct Attribute {
    pub prefix: Option<String>,
    pub name: String,
    pub value: String,
}

/// An element with its attributes (in source order) and its children.
pub struct Element {
    pub prefix: Option<String>,
    pub name: String,
    pub attributes: Vec<Attribute>,
    pub children: Vec<Node>,
}

/// A node of the document tree.
pub enum Node {
    Element(Element),
    Text(String),
    Comment(String),
    CData(String),
    ProcessingInstruction(String),
    Doctype(String),
}

/// A parsed SVG document: the sequence of top-level nodes.
pub struct Document {
    pub children: Vec<Node>,
}

pub struct AttrV {
    pub prefix: Option<Seq<char>>,
    pub name: Seq<char>,
    pub value: Seq<char>,
}

pub struct ElemV {
    pub prefix: Option<Seq<char>>,
    pub name: Seq<char>,
    pub attrs: Seq<AttrV>,
    pub children: Seq<NodeV>,
}

pub enum NodeV {
    Element(ElemV),
    Text(Seq<char>),
    Comment(Seq<char>),
    CData(Seq<char>),
    ProcInst(Seq<char>),
    Doctype(Seq<char>),
}

pub open spec fn opt_view(o: Option<String>) -> Option<Seq<char>> {
    match o {
        Some(s) => Some(s@),
        None => None,
    }
}

impl View for Attribute {
    type V = AttrV;

    open spec fn view(&self) -> AttrV {
        AttrV { prefix: opt_view(self.prefix), name: self.name@, value: self.value@ }
    }
}

pub open spec fn attrs_view(s: Seq<Attribute>) -> Seq<AttrV>
    decreases s.len(),
{
    if s.len() == 0 {
        Seq::empty()
    } else {
        attrs_view(s.drop_last()).push(s.last()@)
    }
}

pub proof fn lemma_attrs_view(s: Seq<Attribute>)
    ensures
        attrs_view(s).len() == s.len(),
        forall|i: int| 0 <= i < s.len() ==> #[trigger] attrs_view(s)[i] == s[i]@,
    decreases s.len(),
{
    if s.len() > 0 {
        lemma_attrs_view(s.drop_last());
    }
}

pub proof fn lemma_attrs_view_add(a: Seq<Attribute>, b: Seq<Attribute>)
    ensures
        attrs_view(a + b) == attrs_view(a) + attrs_view(b),
    decreases b.len(),
{
    if b.len() == 0 {
        assert(a + b =~= a);
        assert(attrs_view(a) + attrs_view(b) =~= attrs_view(a));
    } else {
        lemma_attrs_view_add(a, b.drop_last());
        assert((a + b).drop_last() =~= a + b.drop_last());
        assert(attrs_view(a) + attrs_view(b) =~= (attrs_view(a) + attrs_view(b.drop_last())).push(
            b.last()@,
        ));
    }
}

pub proof fn lemma_attrs_view_push(s: Seq<Attribute>, a: Attribute)
    ensures
        attrs_view(s.push(a)) == attrs_view(s).push(a@),
{
    assert(s.push(a).drop_last() =~= s);
}

pub open spec fn node_view(n: Node) -> NodeV
    decreases n,
{
    match n {
        Node::Element(e) => NodeV::Element(elem_view(e)),
        Node::Text(t) => NodeV::Text(t@),
        Node::Comment(t) => NodeV::Comment(t@),
        Node::CData(t) => NodeV::CData(t@),
        Node::ProcessingInstruction(t) => NodeV::ProcInst(t@),
        Node::Doctype(t) => NodeV::Doctype(t@),
    }
}

pub open spec fn elem_view(e: Element) -> ElemV
    decreases e,
{
    ElemV {
        prefix: opt_view(e.prefix),
        name: e.name@,
        attrs: attrs_view(e.attributes@),
        children: nodes_view(e.children@),
    }
}

pub open spec fn nodes_view(s: Seq<Node>) -> Seq<NodeV>
    decreases s,
{
    if s.len() == 0 {
        Seq::empty()
    } else {
        nodes_view(s.drop_last()).push(node_view(s.last()))
    }
}

impl View for Node {
    type V = NodeV;

    open spec fn view(&self) -> NodeV {
        node_view(*self)
    }
}

impl View for Document {
    type V = Seq<NodeV>;

    open spec fn view(&self) -> Seq<NodeV> {
        nodes_view(self.children@)
    }
}

/// A copy of an optional string.
pub fn clone_opt(o: &Option<String>) -> (r: Option<String>)
    ensures
        opt_view(r) == opt_view(*o),
{
    match o {
        Some(s) => Some(s.clone()),
        None => None,
    }
}

/// A copy of an attribute.
pub fn clone_attr(a: &Attribute) -> (r: Attribute)
    ensures
        r@ == a@,
{
    Attribute { prefix: clone_opt(&a.prefix), name: a.name.clone(), value: a.value.clone() }
}

/// A copy of an attribute list.
pub fn clone_attrs(v: &Vec<Attribute>) -> (r: Vec<Attribute>)
    ensures
        attrs_view(r@) == attrs_view(v@),
{
    let mut out: Vec<Attribute> = Vec::new();
    let mut i: usize = 0;
    while i < v.len()
        invariant
            0 <= i <= v@.len(),
            attrs_view(out@) == attrs_view(v@.take(i as int)),
        decreases v@.len() - i,
    {
        let c = clone_attr(&v[i]);
        proof {
            lemma_attrs_view_push(out@, c);
            lemma_attrs_view_push(v@.take(i as int), v@[i as int]);
            assert(v@.take(i as int).push(v@[i as int]) =~= v@.take(i + 1));
        }
        out.push(c);
        i += 1;
    }
    assert(v@.take(v@.len() as int) =~= v@);
    out
}

/// A deep copy of a node.
pub fn clone_node(n: &Node) -> (r: Node)
    ensures
        r@ == n@,
    decreases n, 1int,
{
    match n {
        Node::Element(e) => {
            let c = clone_nodes(&e.children);
            let r = Element {
                prefix: clone_opt(&e.prefix),
                name: e.name.clone(),
                attributes: clone_attrs(&e.attributes),
                children: c,
            };
            Node::Element(r)
        },
        Node::Text(t) => Node::Text(t.clone()),
        Node::Comment(t) => Node::Comment(t.clone()),
        Node::CData(t) => Node::CData(t.clone()),
        Node::ProcessingInstruction(t) => Node::ProcessingInstruction(t.clone()),
        Node::Doctype(t) => Node::Doctype(t.clone()),
    }
}

/// A deep copy of a node list.
pub fn clone_nodes(v: &Vec<Node>) -> (r: Vec<Node>)
    ensures
        nodes_view(r@) == nodes_view(v@),
    decreases v, 0int,
{
    let mut out: Vec<Node> = Vec::new();
    let mut i: usize = 0;
    while i < v.len()
        invariant
            0 <= i <= v@.len(),
            nodes_view(out@) == nodes_view(v@.take(i as int)),
        decreases v@.len() - i,
    {
        let c = clone_node(&v[i]);
        proof {
            lemma_nodes_view_push(out@, c);
            lemma_nodes_view_push(v@.take(i as int), v@[i as int]);
            assert(v@.take(i as int).push(v@[i as int]) =~= v@.take(i + 1));
        }
        out.push(c);
        i += 1;
    }
    assert(v@.take(v@.len() as int) =~= v@);
    out
}

pub proof fn lemma_nodes_view_len(s: Seq<Node>)
    ensures
        nodes_view(s).len() == s.len(),
        forall|i: int| 0 <= i < s.len() ==> #[trigger] nodes_view(s)[i] == node_view(s[i]),
    decreases s.len(),
{
    if s.len() > 0 {
        lemma_nodes_view_len(s.drop_last());
    }
}

pub proof fn lemma_nodes_view_push(s: Seq<Node>, n: Node)
    ensures
        nodes_view(s.push(n)) == nodes_view(s).push(node_view(n)),
{
    assert(s.push(n).drop_last() =~= s);
}

/// The view of a prefix grows by one node at a time.
pub proof fn lemma_take_push(v: Seq<Node>, i: int)
    requires
        0 <= i < v.len(),
    ensures
        nodes_view(v.take(i + 1)) == nodes_view(v.take(i)).push(node_view(v[i])),
        nodes_view(v.take(i)).push(node_view(v[i])).drop_last() == nodes_view(v.take(i)),
        nodes_view(v.take(i)).push(node_view(v[i])).last() == node_view(v[i]),
{
    assert(v.take(i).push(v[i]) =~= v.take(i + 1));
    lemma_nodes_view_push(v.take(i), v[i]);
    assert(nodes_view(v.take(i)).push(node_view(v[i])).drop_last() =~= nodes_view(v.take(i)));
}

/// A full prefix is the whole sequence.
pub proof fn lemma_take_all(v: Seq<Node>)
    ensures
        v.take(v.len() as int) == v,
{
    assert(v.take(v.len() as int) =~= v);
}

pub proof fn lemma_nodes_view_add(a: Seq<Node>, b: Seq<Node>)
    ensures
        nodes_view(a + b) == nodes_view(a) + nodes_view(b),
    decreases b.len(),
{
    if b.len() == 0 {
        assert(a + b =~= a);
        assert(nodes_view(a) + nodes_view(b) =~= nodes_view(a));
    } else {
        lemma_nodes_view_add(a, b.drop_last());
        assert((a + b).drop_last() =~= a + b.drop_last());
        assert(nodes_view(a) + nodes_view(b) =~= (nodes_view(a) + nodes_view(b.drop_last())).push(node_view(b.last())));
    }
}

/// Whether an element name is `foreignObject`, whose content the passes leave as it is.
pub open spec fn is_foreign_name(name: Seq<char>) -> bool {
    name == "foreignObject"@
}

pub fn is_foreign_exec(name: &String) -> (r: bool)
    ensures
        r == is_foreign_name(name@),
{
    proof {
        reveal_strlit("foreignObject");
    }
    crate::text::is_lit(name, "foreignObject")
}

} // verus!
