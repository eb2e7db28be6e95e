//! The ordered, classified element sequence of a whole document, and
//! node-path resolution over it.

use crate::element::{canonical_tokens, pairs_lookup, Element, ElementType, ElementView};
use crate::tokenizer::{
    push_deep, render_tokens, spec_parse, spec_render, TokenView, Tokenizer, TokenizerError,
    TokenizerView,
};
use vstd::prelude::*;
use vstd::string::StrSliceExecFns;

verus! {

/// Why a whole document could not be parsed into a scene.
#[derive(Debug, Clone, Copy, PartialEq, Eq, Structural)]
pub enum SceneError {
    TokenizerError(TokenizerError),
    UnexpectedErr,
}

/// Why a node-path resolution failed.
#[derive(Debug, Clone, Copy, PartialEq, Eq, Structural)]
pub enum NodePathError {
    /// No node element matched the path's parent chain and terminal name.
    NodeNotFound,
    /// A node matched, but it has no property of the requested name.
    PropertyNotFound,
}

/// Whether a node path may be resolved against a scene.
#[derive(Debug, Clone, PartialEq)]
pub enum NodePathStatus {
    Valid,
    /// The path is unusable, with a diagnostic reason.
    Invalid(String),
}

/// A parsed hierarchical address: the ancestor segment names, the terminal
/// node name, and a validity flag.  Immutable once constructed.
#[derive(Debug)]
pub struct NodePath {
    pub path: Vec<String>,
    pub node_name: String,
    pub status: NodePathStatus,
}

/// The mathematical model of a [`NodePathStatus`].
pub enum NodePathStatusView {
    Valid,
    Invalid(Seq<char>),
}

/// The mathematical model of a [`NodePath`].
pub struct NodePathView {
    pub path: Seq<Seq<char>>,
    pub node_name: Seq<char>,
    pub status: NodePathStatusView,
}

impl View for NodePath {
    type V = NodePathView;

    open spec fn view(&self) -> NodePathView {
        NodePathView {
            path: self.path.deep_view(),
            node_name: self.node_name@,
            status: match self.status {
                NodePathStatus::Valid => NodePathStatusView::Valid,
                NodePathStatus::Invalid(r) => NodePathStatusView::Invalid(r@),
            },
        }
    }
}

pub open spec fn is_path_sep(c: char) -> bool {
    c == '/' || c == '\\'
}

/// Splitting on path separators: always at least one segment, with one
/// more segment for every separator.
pub open spec fn sep_split(s: Seq<char>) -> Seq<Seq<char>>
    decreases s.len(),
{
    if s.len() == 0 {
        seq![Seq::<char>::empty()]
    } else if is_path_sep(s[0]) {
        seq![Seq::<char>::empty()] + sep_split(s.drop_first())
    } else {
        let rest = sep_split(s.drop_first());
        seq![seq![s[0]] + rest[0]] + rest.drop_first()
    }
}

/// If `[i, k)` holds no separator and `k` is a separator, the split of the
/// suffix at `i` starts with exactly that segment.
proof fn lemma_sep_split_step(s: Seq<char>, i: int, k: int)
    requires
        0 <= i <= k < s.len(),
        forall|m: int| i <= m < k ==> !is_path_sep(s[m]),
        is_path_sep(s[k]),
    ensures
        sep_split(s.skip(i)) == seq![s.subrange(i, k)] + sep_split(s.skip(k + 1)),
    decreases k - i,
{
    let suf = s.skip(i);
    if i == k {
        assert(suf[0] == s[i]);
        assert(suf.drop_first() =~= s.skip(i + 1));
        assert(s.subrange(i, k) =~= Seq::<char>::empty());
        assert(seq![Seq::<char>::empty()] + sep_split(s.skip(i + 1)) == seq![s.subrange(i, k)]
            + sep_split(s.skip(k + 1)));
    } else {
        assert(suf[0] == s[i]);
        assert(!is_path_sep(suf[0]));
        assert(suf.drop_first() =~= s.skip(i + 1));
        lemma_sep_split_step(s, i + 1, k);
        let rest = sep_split(s.skip(i + 1));
        assert(rest[0] == s.subrange(i + 1, k));
        assert(seq![s[i]] + rest[0] =~= s.subrange(i, k));
        assert(rest.drop_first() == sep_split(s.skip(k + 1)));
        assert(sep_split(suf) == seq![seq![suf[0]] + rest[0]] + rest.drop_first());
    }
}

/// If the suffix at `i` holds no separator, it is one whole segment.
proof fn lemma_sep_split_last(s: Seq<char>, i: int)
    requires
        0 <= i <= s.len(),
        forall|m: int| i <= m < s.len() ==> !is_path_sep(s[m]),
    ensures
        sep_split(s.skip(i)) == seq![s.subrange(i, s.len() as int)],
    decreases s.len() - i,
{
    let suf = s.skip(i);
    if i == s.len() {
        assert(suf =~= Seq::<char>::empty());
        assert(s.subrange(i, s.len() as int) =~= Seq::<char>::empty());
    } else {
        assert(suf[0] == s[i]);
        assert(!is_path_sep(suf[0]));
        assert(suf.drop_first() =~= s.skip(i + 1));
        lemma_sep_split_last(s, i + 1);
        let rest = sep_split(s.skip(i + 1));
        assert(rest[0] == s.subrange(i + 1, s.len() as int));
        assert(seq![s[i]] + rest[0] =~= s.subrange(i, s.len() as int));
        assert(rest.drop_first() =~= Seq::<Seq<char>>::empty());
        assert(sep_split(suf) == seq![seq![suf[0]] + rest[0]] + rest.drop_first());
        assert(sep_split(suf) =~= seq![s.subrange(i, s.len() as int)]);
    }
}

/// The model a raw address string parses to: any `.` makes it invalid
/// (relative addressing is unsupported), an empty input is malformed, and
/// otherwise the string splits on `/` or `\` into the ancestor chain and
/// the terminal name.
pub open spec fn spec_node_path(s: Seq<char>) -> NodePathView {
    if s.contains('.') {
        NodePathView {
            path: Seq::<Seq<char>>::empty(),
            node_name: Seq::<char>::empty(),
            status: NodePathStatusView::Invalid("Path cannot be relative."@),
        }
    } else if s.len() == 0 {
        NodePathView {
            path: Seq::<Seq<char>>::empty(),
            node_name: Seq::<char>::empty(),
            status: NodePathStatusView::Invalid("Path not formatted correctly."@),
        }
    } else {
        let segs = sep_split(s);
        NodePathView { path: segs.drop_last(), node_name: segs.last(), status: NodePathStatusView::Valid }
    }
}

impl NodePath {
    /// An unusable path carrying the given diagnostic reason.
    fn return_invalid(reason: &str) -> (r: NodePath)
        ensures
            r@.path == Seq::<Seq<char>>::empty(),
            r@.node_name == Seq::<char>::empty(),
            r@.status == NodePathStatusView::Invalid(reason@),
    {
        let r = NodePath {
            path: Vec::new(),
            node_name: String::new(),
            status: NodePathStatus::Invalid(String::from_str(reason)),
        };
        proof {
            assert(r@.path =~= Seq::<Seq<char>>::empty());
        }
        r
    }

    /// Parses a raw address: see [`spec_node_path`].
    pub fn from(string: &str) -> (r: NodePath)
        ensures
            r@ == spec_node_path(string@),
    {
        let n = string.unicode_len();
        let mut k: usize = 0;
        while k < n
            invariant
                k <= n,
                n == string@.len(),
                forall|m: int| 0 <= m < k ==> string@[m] != '.',
            decreases n - k,
        {
            if string.get_char(k) == '.' {
                proof {
                    assert(string@.contains('.')) by {
                        assert(string@[k as int] == '.');
                    }
                }
                return NodePath::return_invalid("Path cannot be relative.");
            }
            k += 1;
        }
        proof {
            if string@.contains('.') {
                let w = choose|m: int| 0 <= m < string@.len() && string@[m] == '.';
                assert(false);
            }
        }
        if n == 0 {
            return NodePath::return_invalid("Path not formatted correctly.");
        }
        let mut path: Vec<String> = Vec::new();
        let mut seg_start: usize = 0;
        let mut k2: usize = 0;
        proof {
            assert(path.deep_view() =~= Seq::<Seq<char>>::empty());
            assert(string@.skip(0) =~= string@);
        }
        while k2 < n
            invariant
                seg_start <= k2 <= n,
                n == string@.len(),
                !string@.contains('.'),
                sep_split(string@) == path.deep_view() + sep_split(string@.skip(seg_start as int)),
                forall|m: int| seg_start <= m < k2 ==> !is_path_sep(string@[m]),
            decreases n - k2,
        {
            let c = string.get_char(k2);
            if c == '/' || c == '\\' {
                proof {
                    lemma_sep_split_step(string@, seg_start as int, k2 as int);
                }
                push_deep(&mut path, String::from_str(string.substring_char(seg_start, k2)));
                seg_start = k2 + 1;
            }
            k2 += 1;
        }
        proof {
            lemma_sep_split_last(string@, seg_start as int);
        }
        let node_name = String::from_str(string.substring_char(seg_start, n));
        proof {
            let segs = sep_split(string@);
            assert(segs == path.deep_view() + seq![node_name@]);
            assert(segs.drop_last() =~= path.deep_view());
            assert(segs.last() == node_name@);
        }
        NodePath { path, node_name, status: NodePathStatus::Valid }
    }

    /// Whether resolution against a scene may be attempted at all.
    pub fn is_valid(&self) -> (r: bool)
        ensures
            r == (self@.status == NodePathStatusView::Valid),
    {
        match &self.status {
            NodePathStatus::Valid => true,
            NodePathStatus::Invalid(_) => false,
        }
    }
}

/// The ancestor segments joined with `/`.
pub open spec fn spec_join(segs: Seq<Seq<char>>) -> Seq<char>
    decreases segs.len(),
{
    if segs.len() == 0 {
        Seq::<char>::empty()
    } else if segs.len() == 1 {
        segs[0]
    } else {
        spec_join(segs.drop_last()) + seq!['/'] + segs.last()
    }
}

/// The text a node's `parent` data field holds for a given ancestor
/// chain: a quoted `.` for an empty chain, otherwise the chain joined
/// with `/` and quoted — quoted consistently with how the fields are
/// stored, so a stored `parent="."` matches an empty chain.
pub open spec fn parent_repr(path: Seq<Seq<char>>) -> Seq<char> {
    if path.len() == 0 {
        seq!['"', '.', '"']
    } else {
        seq!['"'] + spec_join(path) + seq!['"']
    }
}

pub open spec fn quoted(name: Seq<char>) -> Seq<char> {
    seq!['"'] + name + seq!['"']
}

/// Whether an element is the node a path step addresses: a Node-kind
/// element whose `parent` field holds the parent representation and whose
/// `name` field holds the quoted terminal name.
pub open spec fn node_matches(e: ElementView, parent: Seq<char>, name: Seq<char>) -> bool {
    e.kind == ElementType::Node && pairs_lookup(e.data, "parent"@) == Some(parent)
        && pairs_lookup(e.data, "name"@) == Some(quoted(name))
}

/// The index of the first element a path step addresses, or the length if
/// none matches.
pub open spec fn find_node(elems: Seq<ElementView>, parent: Seq<char>, name: Seq<char>) -> int
    decreases elems.len(),
{
    if elems.len() == 0 {
        0
    } else if node_matches(elems[0], parent, name) {
        0
    } else {
        1 + find_node(elems.drop_first(), parent, name)
    }
}

/// If no element before `k` matches and the element at `k` does (or `k` is
/// the length), the first match is at `k`.
proof fn lemma_find_node_at(elems: Seq<ElementView>, parent: Seq<char>, name: Seq<char>, k: int)
    requires
        0 <= k <= elems.len(),
        forall|m: int| 0 <= m < k ==> !node_matches(elems[m], parent, name),
        k == elems.len() || node_matches(elems[k], parent, name),
    ensures
        find_node(elems, parent, name) == k,
    decreases k, elems.len(),
{
    if elems.len() == 0 {
    } else if k == 0 {
    } else {
        let t = elems.drop_first();
        assert(forall|m: int| 0 <= m < k - 1 ==> t[m] == elems[m + 1] && !node_matches(
            elems[m + 1],
            parent,
            name,
        ));
        lemma_find_node_at(t, parent, name, k - 1);
    }
}

/// The canonical token sequence of a whole element sequence, in element
/// order.
pub open spec fn scene_tokens(elems: Seq<ElementView>) -> Seq<TokenView>
    decreases elems.len(),
{
    if elems.len() == 0 {
        Seq::<TokenView>::empty()
    } else {
        scene_tokens(elems.drop_last()) + canonical_tokens(
            elems.last().name,
            elems.last().data,
            elems.last().props,
        )
    }
}

/// An ordered collection of classified elements, together with the
/// tokenizer that produced them.
#[derive(Debug)]
pub struct Scene {
    pub elements: Vec<Element>,
    pub tokenizer: Tokenizer,
}

/// The mathematical model of a [`Scene`].
pub struct SceneView {
    pub elements: Seq<ElementView>,
    pub tokenizer: TokenizerView,
}

impl View for Scene {
    type V = SceneView;

    open spec fn view(&self) -> SceneView {
        SceneView { elements: self.elements.deep_view(), tokenizer: self.tokenizer@ }
    }
}

/// The elements of the given kind, in order.
pub open spec fn kind_filter(elems: Seq<ElementView>, t: ElementType) -> Seq<ElementView>
    decreases elems.len(),
{
    if elems.len() == 0 {
        Seq::<ElementView>::empty()
    } else {
        kind_filter(elems.drop_last(), t) + (if elems.last().kind == t {
            seq![elems.last()]
        } else {
            Seq::<ElementView>::empty()
        })
    }
}

impl Scene {
    /// The elements of one kind, in document order, without altering the
    /// canonical sequence.
    pub fn filter_elements<'a>(elements: &'a Vec<Element>, element_type: ElementType) -> (r: Vec<
        &'a Element,
    >)
        ensures
            r.deep_view() == kind_filter(elements.deep_view(), element_type),
    {
        let mut r: Vec<&'a Element> = Vec::new();
        proof {
            assert(r.deep_view() =~= Seq::<ElementView>::empty());
        }
        let mut k: usize = 0;
        while k < elements.len()
            invariant
                k <= elements@.len(),
                r.deep_view() == kind_filter(elements.deep_view().take(k as int), element_type),
            decreases elements@.len() - k,
        {
            proof {
                let dv = elements.deep_view();
                assert(dv.take(k + 1).drop_last() =~= dv.take(k as int));
                assert(dv.take(k + 1).last() == dv[k as int]);
                assert(dv[k as int] == elements@[k as int].deep_view());
            }
            if elements[k].element_type == element_type {
                push_deep(&mut r, &elements[k]);
            }
            k += 1;
        }
        proof {
            assert(elements.deep_view().take(elements.deep_view().len() as int)
                =~= elements.deep_view());
        }
        r
    }

    /// Appends elements at the end of the scene, preserving order.
    pub fn add_elements(&mut self, elements: Vec<Element>)
        ensures
            final(self)@.elements == old(self)@.elements + elements.deep_view(),
            final(self)@.tokenizer == old(self)@.tokenizer,
    {
        let ghost pre = self.elements;
        let ghost other = elements;
        let mut elements = elements;
        self.elements.append(&mut elements);
        proof {
            crate::tokenizer::lemma_append_deep(pre, self.elements, other);
        }
    }

    /// Resolves a node path against the Node-kind elements, in document
    /// order, and reads one property of the first matching node.  An
    /// invalid path fails without scanning the scene.
    pub fn get_node_property(&self, node_path: NodePath, property_name: &str) -> (r: Result<
        String,
        NodePathError,
    >)
        ensures
            ({
                let p = node_path@;
                let parent = parent_repr(p.path);
                let i = find_node(self@.elements, parent, p.node_name);
                match r {
                    Ok(v) => p.status == NodePathStatusView::Valid && i < self@.elements.len()
                        && pairs_lookup(self@.elements[i].props, property_name@) == Some(v@),
                    Err(e) => if p.status != NodePathStatusView::Valid {
                        e == NodePathError::NodeNotFound
                    } else if i < self@.elements.len() {
                        e == NodePathError::PropertyNotFound && pairs_lookup(
                            self@.elements[i].props,
                            property_name@,
                        ) is None
                    } else {
                        e == NodePathError::NodeNotFound
                    },
                }
            }),
    {
        match &node_path.status {
            NodePathStatus::Valid => {},
            NodePathStatus::Invalid(_) => {
                return Err(NodePathError::NodeNotFound);
            },
        }
        let parent: String = if node_path.path.len() > 0 {
            let mut s = String::new();
            s.push('"');
            let mut k: usize = 0;
            while k < node_path.path.len()
                invariant
                    k <= node_path@.path.len(),
                    k == 0 ==> s@ == seq!['"'],
                    k > 0 ==> s@ == seq!['"'] + spec_join(node_path@.path.take(k as int)),
                decreases node_path@.path.len() - k,
            {
                if k > 0 {
                    s.push('/');
                }
                s.append(node_path.path[k].as_str());
                proof {
                    let pv = node_path@.path;
                    assert(pv[k as int] == node_path.path@[k as int]@);
                    if k == 0 {
                        assert(pv.take(1).len() == 1);
                        assert(pv.take(1)[0] == pv[0]);
                        assert(s@ == seq!['"'] + spec_join(pv.take(1)));
                    } else {
                        assert(pv.take(k + 1).drop_last() =~= pv.take(k as int));
                        assert(pv.take(k + 1).last() == pv[k as int]);
                        assert(spec_join(pv.take(k + 1)) == spec_join(pv.take(k as int))
                            + seq!['/'] + pv[k as int]);
                        assert(s@ == seq!['"'] + spec_join(pv.take(k + 1)));
                    }
                }
                k += 1;
            }
            s.push('"');
            proof {
                let pv = node_path@.path;
                assert(pv.take(pv.len() as int) =~= pv);
                assert(s@ =~= parent_repr(pv));
            }
            s
        } else {
            let mut s = String::new();
            s.push('"');
            s.push('.');
            s.push('"');
            proof {
                assert(s@ =~= parent_repr(node_path@.path));
            }
            s
        };
        let mut quoted_name = String::new();
        quoted_name.push('"');
        quoted_name.append(node_path.node_name.as_str());
        quoted_name.push('"');
        proof {
            assert(quoted_name@ =~= quoted(node_path@.node_name));
        }
        let ghost p = node_path@;
        let mut k: usize = 0;
        while k < self.elements.len()
            invariant
                k <= self@.elements.len(),
                parent@ == parent_repr(p.path),
                quoted_name@ == quoted(p.node_name),
                p == node_path@,
                p.status == NodePathStatusView::Valid,
                forall|m: int|
                    0 <= m < k ==> !node_matches(self@.elements[m], parent_repr(p.path), p.node_name),
            decreases self@.elements.len() - k,
        {
            proof {
                assert(self@.elements[k as int] == self.elements@[k as int].deep_view());
            }
            let node = &self.elements[k];
            if node.element_type == ElementType::Node {
                match node.get_data_value("parent") {
                    Ok(node_parent) => {
                        if node_parent == parent {
                            match node.get_data_value("name") {
                                Ok(node_name_val) => {
                                    if node_name_val == quoted_name {
                                        proof {
                                            assert(node_matches(
                                                self@.elements[k as int],
                                                parent_repr(p.path),
                                                p.node_name,
                                            ));
                                            lemma_find_node_at(
                                                self@.elements,
                                                parent_repr(p.path),
                                                p.node_name,
                                                k as int,
                                            );
                                        }
                                        return node.get_property_value(property_name);
                                    }
                                },
                                Err(_) => {},
                            }
                        }
                    },
                    Err(_) => {},
                }
            }
            proof {
                assert(!node_matches(self@.elements[k as int], parent_repr(p.path), p.node_name));
            }
            k += 1;
        }
        proof {
            lemma_find_node_at(
                self@.elements,
                parent_repr(p.path),
                p.node_name,
                self@.elements.len() as int,
            );
        }
        Err(NodePathError::NodeNotFound)
    }

    /// The whole document rendered canonically: every element's token
    /// cache is regenerated from its fields and the renders are
    /// concatenated in element order.
    pub fn to_tscn(self) -> (r: String)
        ensures
            r@ == spec_render(scene_tokens(self@.elements)),
    {
        let ghost orig = self@.elements;
        let mut scene = self;
        let mut out = String::new();
        let mut k: usize = 0;
        proof {
            assert(scene_tokens(orig.take(0)) =~= Seq::<TokenView>::empty());
        }
        while k < scene.elements.len()
            invariant
                k <= orig.len(),
                scene@.elements.len() == orig.len(),
                forall|m: int| k <= m < orig.len() ==> scene@.elements[m] == orig[m],
                out@ == spec_render(scene_tokens(orig.take(k as int))),
            decreases orig.len() - k,
        {
            proof {
                assert(scene@.elements[k as int] == scene.elements@[k as int].deep_view());
            }
            let element = &mut scene.elements[k];
            element.force_update_tokens();
            let piece = render_tokens(&scene.elements[k].tokens);
            out.append(piece.as_str());
            proof {
                let e = orig[k as int];
                assert(scene.elements@[k as int].deep_view().tokens == canonical_tokens(
                    e.name,
                    e.data,
                    e.props,
                ));
                crate::tokenizer::lemma_render_concat(
                    scene_tokens(orig.take(k as int)),
                    canonical_tokens(e.name, e.data, e.props),
                );
                assert(orig.take(k + 1).drop_last() =~= orig.take(k as int));
                assert(orig.take(k + 1).last() == e);
                assert(scene_tokens(orig.take(k + 1)) == scene_tokens(orig.take(k as int))
                    + canonical_tokens(e.name, e.data, e.props));
            }
            k += 1;
        }
        proof {
            assert(orig.take(orig.len() as int) =~= orig);
        }
        out
    }

    /// Parses a whole document: the tokenizer and element sequence are
    /// exactly what [`spec_parse`] assigns to the text.
    pub fn from_tscn_file(content: &str) -> (r: Result<Scene, SceneError>)
        ensures
            match r {
                Ok(scene) => spec_parse(content@) == Ok::<_, TokenizerError>(
                    (scene@.tokenizer.tokens, scene@.elements),
                ) && scene@.tokenizer.elements == scene@.elements,
                Err(e) => match e {
                    SceneError::TokenizerError(te) => spec_parse(content@) == Err::<
                        (Seq<TokenView>, Seq<ElementView>),
                        _,
                    >(te),
                    _ => false,
                },
            },
    {
        match Tokenizer::tokenize(content) {
            Ok(tokenizer) => {
                match tokenizer.elements_from_tokens() {
                    Ok(elements) => Ok(Scene { elements, tokenizer }),
                    Err(_) => {
                        proof {
                            assert(false);
                        }
                        Err(SceneError::UnexpectedErr)
                    },
                }
            },
            Err(error) => Err(SceneError::TokenizerError(error)),
        }
    }
}

} // verus!
