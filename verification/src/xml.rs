//! An XML document as a tree reader sees it: nodes in document order, each
//! with its tag, its attributes, its text and its children.

use vstd::prelude::*;

verus! {

/// A node of a document.
#[derive(Debug)]
pub struct XmlNode {
    /// The name of an element; empty for a node that is no element.
    pub tag: String,
    /// The attributes of an element, each as its name and its value.
    pub attributes: Vec<(String, String)>,
    /// The text of a text node or of a comment, and for an element that of
    /// its first child where that is a text node.
    pub text: Option<String>,
    /// The indices of the children, in document order.
    pub children: Vec<usize>,
}

/// A document: its nodes in document order, the root first.
#[derive(Debug)]
pub struct XmlDoc {
    pub nodes: Vec<XmlNode>,
}

/// What a node of a document holds.
pub struct XmlView {
    pub tag: Seq<char>,
    pub attributes: Seq<(Seq<char>, Seq<char>)>,
    pub text: Option<Seq<char>>,
    pub children: Seq<usize>,
}

impl View for XmlNode {
    type V = XmlView;

    open spec fn view(&self) -> XmlView {
        XmlView {
            tag: self.tag@,
            attributes: Seq::new(
                self.attributes@.len(),
                |i: int| (self.attributes@[i].0@, self.attributes@[i].1@),
            ),
            text: match self.text {
                Some(t) => Some(t@),
                None => None,
            },
            children: self.children@,
        }
    }
}

impl View for XmlDoc {
    type V = Seq<XmlView>;

    open spec fn view(&self) -> Seq<XmlView> {
        Seq::new(self.nodes@.len(), |i: int| self.nodes@[i]@)
    }
}

/// The children of each node of the document are nodes that come after it.
pub open spec fn ordered(d: Seq<XmlView>) -> bool {
    forall|i: int, k: int|
        0 <= i < d.len() && 0 <= k < d[i].children.len() ==> i < #[trigger] d[i].children[k]
            < d.len()
}

/// Node `i` is the first node with the tag `tag`.
pub open spec fn first_tagged(d: Seq<XmlView>, tag: Seq<char>, i: int) -> bool {
    &&& 0 <= i < d.len()
    &&& d[i].tag == tag
    &&& forall|j: int| 0 <= j < i ==> (#[trigger] d[j]).tag != tag
}

/// The nodes with the tag `tag` among the first `k`, in order.
pub open spec fn tagged(d: Seq<XmlView>, tag: Seq<char>, k: nat) -> Seq<usize>
    decreases k,
{
    if k == 0 {
        Seq::empty()
    } else if d[k - 1].tag == tag {
        tagged(d, tag, (k - 1) as nat).push((k - 1) as usize)
    } else {
        tagged(d, tag, (k - 1) as nat)
    }
}

impl XmlDoc {
    /// Whether the children of each node are nodes that come after it.
    pub fn is_ordered(&self) -> (r: bool)
        ensures
            r == ordered(self@),
    {
        let ghost d = self@;
        let mut i: usize = 0;
        while i < self.nodes.len()
            invariant
                i <= d.len(),
                d == self@,
                d.len() == self.nodes@.len(),
                forall|j: int, k: int|
                    0 <= j < i && 0 <= k < d[j].children.len() ==> j < #[trigger] d[j].children[k]
                        < d.len(),
            decreases d.len() - i,
        {
            let mut k: usize = 0;
            assert(d[i as int].children == self.nodes@[i as int].children@);
            while k < self.nodes[i].children.len()
                invariant
                    i < d.len(),
                    d == self@,
                    d.len() == self.nodes@.len(),
                    d[i as int].children == self.nodes@[i as int].children@,
                    k <= d[i as int].children.len(),
                    forall|j: int, k: int|
                        0 <= j < i && 0 <= k < d[j].children.len() ==> j
                            < #[trigger] d[j].children[k] < d.len(),
                    forall|m: int|
                        0 <= m < k ==> i < #[trigger] d[i as int].children[m] < d.len(),
                decreases d[i as int].children.len() - k,
            {
                let c = self.nodes[i].children[k];
                if c <= i || c >= self.nodes.len() {
                    assert(!(i < d[i as int].children[k as int] < d.len()));
                    return false;
                }
                k += 1;
            }
            i += 1;
        }
        true
    }

    /// The first node with the tag `tag`, if there is one.
    pub fn find_tag(&self, tag: &str) -> (r: Option<usize>)
        ensures
            match r {
                Some(i) => first_tagged(self@, tag@, i as int),
                None => forall|j: int| 0 <= j < self@.len() ==> (#[trigger] self@[j]).tag != tag@,
            },
    {
        let wanted = tag.to_owned();
        let mut i: usize = 0;
        while i < self.nodes.len()
            invariant
                i <= self@.len(),
                self@.len() == self.nodes@.len(),
                wanted@ == tag@,
                forall|j: int| 0 <= j < i ==> (#[trigger] self@[j]).tag != tag@,
            decreases self@.len() - i,
        {
            assert(self@[i as int].tag == self.nodes@[i as int].tag@);
            if self.nodes[i].tag == wanted {
                return Some(i);
            }
            i += 1;
        }
        None
    }

    /// The nodes with the tag `tag`, in order.
    pub fn find_tags(&self, tag: &str) -> (r: Vec<usize>)
        ensures
            r@ == tagged(self@, tag@, self@.len()),
    {
        let wanted = tag.to_owned();
        let mut found: Vec<usize> = Vec::new();
        let mut i: usize = 0;
        while i < self.nodes.len()
            invariant
                i <= self@.len(),
                self@.len() == self.nodes@.len(),
                wanted@ == tag@,
                found@ == tagged(self@, tag@, i as nat),
            decreases self@.len() - i,
        {
            assert(self@[i as int].tag == self.nodes@[i as int].tag@);
            if self.nodes[i].tag == wanted {
                found.push(i);
            }
            i += 1;
        }
        found
    }
}

/// The first "clade" of a document, or the error 0.
pub fn find_first_clade(doc: &mut XmlDoc) -> (r: Result<usize, usize>)
    ensures
        *final(doc) == *old(doc),
        match r {
            Ok(i) => first_tagged(old(doc)@, "clade"@, i as int),
            Err(e) => e == 0 && forall|j: int|
                0 <= j < old(doc)@.len() ==> (#[trigger] old(doc)@[j]).tag != "clade"@,
        },
{
    match doc.find_tag("clade") {
        Some(i) => Ok(i),
        None => Err(0),
    }
}

/// The first "spTree" of a document, or the error 0.
pub fn find_sptree(doc: &mut XmlDoc) -> (r: Result<usize, usize>)
    ensures
        *final(doc) == *old(doc),
        match r {
            Ok(i) => first_tagged(old(doc)@, "spTree"@, i as int),
            Err(e) => e == 0 && forall|j: int|
                0 <= j < old(doc)@.len() ==> (#[trigger] old(doc)@[j]).tag != "spTree"@,
        },
{
    match doc.find_tag("spTree") {
        Some(i) => Ok(i),
        None => Err(0),
    }
}

/// Every "recGeneTree" of a document, in order, or the error 0 where there
/// is none.
pub fn find_rgtrees(doc: &mut XmlDoc) -> (r: Result<Vec<usize>, usize>)
    ensures
        *final(doc) == *old(doc),
        match r {
            Ok(found) => found@.len() > 0 && found@ == tagged(
                old(doc)@,
                "recGeneTree"@,
                old(doc)@.len(),
            ),
            Err(e) => e == 0 && tagged(old(doc)@, "recGeneTree"@, old(doc)@.len()).len() == 0,
        },
{
    let gene_nodes = doc.find_tags("recGeneTree");
    if gene_nodes.len() > 0 {
        Ok(gene_nodes)
    } else {
        Err(0)
    }
}

} // verus!
