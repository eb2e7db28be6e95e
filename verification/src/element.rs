//! The structured record model: one bracketed record (`Element`) with its
//! in-bracket `key=value` fields (`ElementData`), its following
//! `key = value` lines (`Property`), and a cached token sequence that is
//! regenerated in full whenever any field changes.

use crate::tokenizer::{lemma_update_deep, push_deep, Token, TokenView};
use vstd::prelude::*;

verus! {

/// A `key = value` line belonging to the element immediately preceding it.
/// Field 0 is the name, field 1 the value.
#[derive(Debug, Clone, PartialEq)]
pub struct Property(pub String, pub String);

/// A `key=value` field declared inside an element's opening bracket.
/// Field 0 is the name, field 1 the value; both are raw text including any
/// original surrounding quote characters.
#[derive(Debug, Clone, PartialEq)]
pub struct ElementData(pub String, pub String);

impl DeepView for Property {
    type V = (Seq<char>, Seq<char>);

    open spec fn deep_view(&self) -> (Seq<char>, Seq<char>) {
        (self.0@, self.1@)
    }
}

impl DeepView for ElementData {
    type V = (Seq<char>, Seq<char>);

    open spec fn deep_view(&self) -> (Seq<char>, Seq<char>) {
        (self.0@, self.1@)
    }
}

/// The field a content-carrying token was expected to hold when its payload
/// turned out to be missing.
#[derive(Debug, Clone, Copy, PartialEq, Eq, Structural)]
pub enum ExpectedType {
    ElementName,
    ElementDataName,
    ElementDataValue,
    PropertyName,
    PropertyValue,
}

/// The classification of an element, derived from its name.
#[derive(Debug, Clone, Copy, PartialEq, Eq, Structural)]
pub enum ElementType {
    Unknown,
    SceneData,
    Resource,
    Node,
}

/// One bracketed record of the format.
#[derive(Debug)]
pub struct Element {
    pub element_name: String,
    pub element_type: ElementType,
    pub element_data: Vec<ElementData>,
    pub properties: Vec<Property>,
    /// Cached token sequence: a valid serialization of the fields above as
    /// of the last mutation or initial parse.  Regenerated in full by the
    /// field-level setters; never patched partially.
    pub tokens: Vec<Token>,
}

/// The mathematical model of an [`Element`].
pub struct ElementView {
    pub name: Seq<char>,
    pub kind: ElementType,
    pub data: Seq<(Seq<char>, Seq<char>)>,
    pub props: Seq<(Seq<char>, Seq<char>)>,
    pub tokens: Seq<TokenView>,
}

impl View for Element {
    type V = ElementView;

    open spec fn view(&self) -> ElementView {
        ElementView {
            name: self.element_name@,
            kind: self.element_type,
            data: self.element_data.deep_view(),
            props: self.properties.deep_view(),
            tokens: self.tokens.deep_view(),
        }
    }
}

impl DeepView for Element {
    type V = ElementView;

    open spec fn deep_view(&self) -> ElementView {
        self.view()
    }
}

/// The model of a freshly begun element: a placeholder name, unknown kind,
/// and no fields or tokens.
pub open spec fn empty_element_view() -> ElementView {
    ElementView {
        name: "Undefined"@,
        kind: ElementType::Unknown,
        data: Seq::<(Seq<char>, Seq<char>)>::empty(),
        props: Seq::<(Seq<char>, Seq<char>)>::empty(),
        tokens: Seq::<TokenView>::empty(),
    }
}

/// The kind an element name classifies to, by exact match against the
/// fixed table.
pub open spec fn classify(name: Seq<char>) -> ElementType {
    if name == "gd_scene"@ || name == "connection"@ {
        ElementType::SceneData
    } else if name == "ext_resource"@ || name == "sub_resource"@ {
        ElementType::Resource
    } else if name == "node"@ {
        ElementType::Node
    } else {
        ElementType::Unknown
    }
}

pub fn classify_name(name: &String) -> (r: ElementType)
    ensures
        r == classify(name@),
{
    if *name == String::from_str("gd_scene") || *name == String::from_str("connection") {
        ElementType::SceneData
    } else if *name == String::from_str("ext_resource") || *name == String::from_str(
        "sub_resource",
    ) {
        ElementType::Resource
    } else if *name == String::from_str("node") {
        ElementType::Node
    } else {
        ElementType::Unknown
    }
}

/// The two tokens a data field contributes to a canonical serialization.
pub open spec fn data_pair_tokens(d: (Seq<char>, Seq<char>)) -> Seq<TokenView> {
    seq![TokenView::ElementDataName(Some(d.0)), TokenView::ElementDataValue(Some(d.1))]
}

pub open spec fn data_tokens_all(data: Seq<(Seq<char>, Seq<char>)>) -> Seq<TokenView>
    decreases data.len(),
{
    if data.len() == 0 {
        Seq::<TokenView>::empty()
    } else {
        data_tokens_all(data.drop_last()) + data_pair_tokens(data.last())
    }
}

/// The three tokens a property contributes to a canonical serialization:
/// its own line.
pub open spec fn prop_pair_tokens(p: (Seq<char>, Seq<char>)) -> Seq<TokenView> {
    seq![
        TokenView::PropertyName(Some(p.0)),
        TokenView::PropertyValue(Some(p.1)),
        TokenView::NewLine,
    ]
}

pub open spec fn prop_tokens_all(props: Seq<(Seq<char>, Seq<char>)>) -> Seq<TokenView>
    decreases props.len(),
{
    if props.len() == 0 {
        Seq::<TokenView>::empty()
    } else {
        prop_tokens_all(props.drop_last()) + prop_pair_tokens(props.last())
    }
}

/// The canonical token sequence of an element: `[` + name + one name/value
/// token pair per data field + `]` + newline, then, if any properties
/// exist, one line per property and a trailing blank line.
pub open spec fn canonical_tokens(
    name: Seq<char>,
    data: Seq<(Seq<char>, Seq<char>)>,
    props: Seq<(Seq<char>, Seq<char>)>,
) -> Seq<TokenView> {
    seq![TokenView::BracketLeft, TokenView::ElementName(Some(name))] + data_tokens_all(data)
        + seq![TokenView::BracketRight, TokenView::NewLine] + (if props.len() > 0 {
        prop_tokens_all(props) + seq![TokenView::NewLine]
    } else {
        Seq::<TokenView>::empty()
    })
}

/// The value of the first pair whose name matches, if any.
pub open spec fn pairs_lookup(pairs: Seq<(Seq<char>, Seq<char>)>, name: Seq<char>) -> Option<
    Seq<char>,
>
    decreases pairs.len(),
{
    if pairs.len() == 0 {
        None
    } else if pairs[0].0 == name {
        Some(pairs[0].1)
    } else {
        pairs_lookup(pairs.drop_first(), name)
    }
}

/// The index of the first pair whose name matches, or the sequence length
/// if none does.
pub open spec fn pairs_find(pairs: Seq<(Seq<char>, Seq<char>)>, name: Seq<char>) -> int
    decreases pairs.len(),
{
    if pairs.len() == 0 {
        0
    } else if pairs[0].0 == name {
        0
    } else {
        1 + pairs_find(pairs.drop_first(), name)
    }
}

/// If no pair before `k` matches and the pair at `k` does (or `k` is the
/// length), the first match is at `k`.
pub proof fn lemma_pairs_find_at(pairs: Seq<(Seq<char>, Seq<char>)>, name: Seq<char>, k: int)
    requires
        0 <= k <= pairs.len(),
        forall|m: int| 0 <= m < k ==> pairs[m].0 != name,
        k == pairs.len() || pairs[k].0 == name,
    ensures
        pairs_find(pairs, name) == k,
        k < pairs.len() ==> pairs_lookup(pairs, name) == Some(pairs[k].1),
        k == pairs.len() ==> pairs_lookup(pairs, name) is None,
    decreases k, pairs.len(),
{
    if pairs.len() == 0 {
    } else if k == 0 {
        if pairs.len() > 0 && pairs[0].0 != name {
            // k == pairs.len() == 0 is impossible here, so pairs[0].0 == name
        }
    } else {
        assert(pairs[0].0 != name);
        let t = pairs.drop_first();
        assert(forall|m: int| 0 <= m < k - 1 ==> t[m] == pairs[m + 1] && pairs[m + 1].0 != name);
        lemma_pairs_find_at(t, name, k - 1);
    }
}

impl Property {
    pub fn to_tokens(&self) -> (r: [Token; 2])
        ensures
            r@ == seq![
                Token::PropertyName(Some(self.0)),
                Token::PropertyValue(Some(self.1)),
            ],
    {
        [Token::PropertyName(Some(self.0.clone())), Token::PropertyValue(Some(self.1.clone()))]
    }
}

impl ElementData {
    pub fn to_tokens(&self) -> (r: [Token; 2])
        ensures
            r@ == seq![
                Token::ElementDataName(Some(self.0)),
                Token::ElementDataValue(Some(self.1)),
            ],
    {
        [
            Token::ElementDataName(Some(self.0.clone())),
            Token::ElementDataValue(Some(self.1.clone())),
        ]
    }
}

impl Element {
    /// A freshly begun element, before any token has been attached.
    pub fn empty() -> (r: Element)
        ensures
            r@ == empty_element_view(),
    {
        let r = Element {
            element_name: String::from_str("Undefined"),
            element_type: ElementType::Unknown,
            element_data: Vec::new(),
            properties: Vec::new(),
            tokens: Vec::new(),
        };
        proof {
            assert(r@.data =~= empty_element_view().data);
            assert(r@.props =~= empty_element_view().props);
            assert(r@.tokens =~= empty_element_view().tokens);
        }
        r
    }

    /// Regenerates the cached token sequence, in full, from the current
    /// fields.
    pub fn force_update_tokens(&mut self)
        ensures
            final(self)@.name == old(self)@.name,
            final(self)@.kind == old(self)@.kind,
            final(self)@.data == old(self)@.data,
            final(self)@.props == old(self)@.props,
            final(self)@.tokens == canonical_tokens(
                old(self)@.name,
                old(self)@.data,
                old(self)@.props,
            ),
    {
        let ghost head = seq![
            TokenView::BracketLeft,
            TokenView::ElementName(Some(self.element_name@)),
        ];
        let mut tokens: Vec<Token> = Vec::new();
        push_deep(&mut tokens, Token::BracketLeft);
        push_deep(&mut tokens, Token::ElementName(Some(self.element_name.clone())));
        proof {
            assert(tokens.deep_view() =~= head);
        }
        let mut k: usize = 0;
        while k < self.element_data.len()
            invariant
                k <= self@.data.len(),
                tokens.deep_view() == head + data_tokens_all(self@.data.take(k as int)),
            decreases self@.data.len() - k,
        {
            let d = &self.element_data[k];
            push_deep(&mut tokens, Token::ElementDataName(Some(d.0.clone())));
            push_deep(&mut tokens, Token::ElementDataValue(Some(d.1.clone())));
            proof {
                let pre = self@.data.take(k as int);
                let post = self@.data.take(k + 1);
                assert(post.drop_last() =~= pre);
                assert(post.last() == self@.data[k as int]);
                assert(tokens.deep_view() =~= head + data_tokens_all(post));
            }
            k += 1;
        }
        proof {
            assert(self@.data.take(self@.data.len() as int) =~= self@.data);
        }
        push_deep(&mut tokens, Token::BracketRight);
        push_deep(&mut tokens, Token::NewLine);
        let ghost mid = head + data_tokens_all(self@.data) + seq![
            TokenView::BracketRight,
            TokenView::NewLine,
        ];
        proof {
            assert(tokens.deep_view() =~= mid);
        }
        if self.properties.len() > 0 {
            let mut k2: usize = 0;
            while k2 < self.properties.len()
                invariant
                    k2 <= self@.props.len(),
                    tokens.deep_view() == mid + prop_tokens_all(self@.props.take(k2 as int)),
                decreases self@.props.len() - k2,
            {
                let p = &self.properties[k2];
                push_deep(&mut tokens, Token::PropertyName(Some(p.0.clone())));
                push_deep(&mut tokens, Token::PropertyValue(Some(p.1.clone())));
                push_deep(&mut tokens, Token::NewLine);
                proof {
                    let pre = self@.props.take(k2 as int);
                    let post = self@.props.take(k2 + 1);
                    assert(post.drop_last() =~= pre);
                    assert(post.last() == self@.props[k2 as int]);
                    assert(tokens.deep_view() =~= mid + prop_tokens_all(post));
                }
                k2 += 1;
            }
            proof {
                assert(self@.props.take(self@.props.len() as int) =~= self@.props);
            }
            push_deep(&mut tokens, Token::NewLine);
        }
        proof {
            assert(tokens.deep_view() =~= canonical_tokens(self@.name, self@.data, self@.props));
        }
        self.tokens = tokens;
    }

    /// First-match lookup by exact name over the data fields: the value of
    /// the first `ElementData` whose name matches, even if duplicates
    /// exist.
    pub fn get_data_value(&self, data_name: &str) -> (r: Result<String, ()>)
        ensures
            match r {
                Ok(v) => pairs_lookup(self@.data, data_name@) == Some(v@),
                Err(_) => pairs_lookup(self@.data, data_name@) is None,
            },
    {
        let needle = String::from_str(data_name);
        let mut k: usize = 0;
        while k < self.element_data.len()
            invariant
                k <= self@.data.len(),
                needle@ == data_name@,
                forall|m: int| 0 <= m < k ==> self@.data[m].0 != data_name@,
            decreases self@.data.len() - k,
        {
            if self.element_data[k].0 == needle {
                proof {
                    lemma_pairs_find_at(self@.data, data_name@, k as int);
                }
                return Ok(self.element_data[k].1.clone());
            }
            k += 1;
        }
        proof {
            lemma_pairs_find_at(self@.data, data_name@, self@.data.len() as int);
        }
        Err(())
    }

    /// First-match lookup by exact name over the property lines.
    pub fn get_property_value(&self, property_name: &str) -> (r: Result<
        String,
        crate::scene::NodePathError,
    >)
        ensures
            match r {
                Ok(v) => pairs_lookup(self@.props, property_name@) == Some(v@),
                Err(e) => pairs_lookup(self@.props, property_name@) is None && e
                    == crate::scene::NodePathError::PropertyNotFound,
            },
    {
        let needle = String::from_str(property_name);
        let mut k: usize = 0;
        while k < self.properties.len()
            invariant
                k <= self@.props.len(),
                needle@ == property_name@,
                forall|m: int| 0 <= m < k ==> self@.props[m].0 != property_name@,
            decreases self@.props.len() - k,
        {
            if self.properties[k].0 == needle {
                proof {
                    lemma_pairs_find_at(self@.props, property_name@, k as int);
                }
                return Ok(self.properties[k].1.clone());
            }
            k += 1;
        }
        proof {
            lemma_pairs_find_at(self@.props, property_name@, self@.props.len() as int);
        }
        Err(crate::scene::NodePathError::PropertyNotFound)
    }

    /// Replaces the value of the first data field whose name matches and
    /// regenerates the token cache; on no match the element is left
    /// untouched.
    pub fn update_data(&mut self, data_name: &str, new_value: &str) -> (r: Result<(), ()>)
        ensures
            ({
                let data = old(self)@.data;
                let i = pairs_find(data, data_name@);
                if i < data.len() {
                    let data2 = data.update(i, (data[i].0, new_value@));
                    r is Ok && final(self)@.name == old(self)@.name && final(self)@.kind == old(
                        self,
                    )@.kind && final(self)@.data == data2 && final(self)@.props == old(self)@.props
                        && final(self)@.tokens == canonical_tokens(
                        old(self)@.name,
                        data2,
                        old(self)@.props,
                    )
                } else {
                    r is Err && *final(self) == *old(self)
                }
            }),
    {
        let needle = String::from_str(data_name);
        let mut k: usize = 0;
        while k < self.element_data.len()
            invariant
                *self == *old(self),
                k <= self@.data.len(),
                needle@ == data_name@,
                forall|m: int| 0 <= m < k ==> self@.data[m].0 != data_name@,
            decreases self@.data.len() - k,
        {
            if self.element_data[k].0 == needle {
                proof {
                    lemma_pairs_find_at(self@.data, data_name@, k as int);
                }
                let ghost pre_vec = self.element_data;
                let elem = &mut self.element_data[k];
                elem.1 = String::from_str(new_value);
                proof {
                    let x = self.element_data@[k as int];
                    lemma_update_deep(pre_vec, self.element_data, k as int, x);
                    assert(pre_vec.deep_view()[k as int] == pre_vec@[k as int].deep_view());
                    assert(x.deep_view() == (old(self)@.data[k as int].0, new_value@));
                }
                self.force_update_tokens();
                return Ok(());
            }
            k += 1;
        }
        proof {
            lemma_pairs_find_at(self@.data, data_name@, self@.data.len() as int);
        }
        Err(())
    }

    /// Replaces the value of the data field at `index` and regenerates the
    /// token cache; out of range leaves the element untouched.
    pub fn update_data_by_index(&mut self, index: usize, new_value: &str) -> (r: Result<(), ()>)
        ensures
            ({
                let data = old(self)@.data;
                if index < data.len() {
                    let data2 = data.update(index as int, (data[index as int].0, new_value@));
                    r is Ok && final(self)@.name == old(self)@.name && final(self)@.kind == old(
                        self,
                    )@.kind && final(self)@.data == data2 && final(self)@.props == old(self)@.props
                        && final(self)@.tokens == canonical_tokens(
                        old(self)@.name,
                        data2,
                        old(self)@.props,
                    )
                } else {
                    r is Err && *final(self) == *old(self)
                }
            }),
    {
        if index < self.element_data.len() {
            let ghost pre_vec = self.element_data;
            let elem = &mut self.element_data[index];
            elem.1 = String::from_str(new_value);
            proof {
                let x = self.element_data@[index as int];
                lemma_update_deep(pre_vec, self.element_data, index as int, x);
                assert(pre_vec.deep_view()[index as int] == pre_vec@[index as int].deep_view());
                assert(x.deep_view() == (old(self)@.data[index as int].0, new_value@));
            }
            self.force_update_tokens();
            Ok(())
        } else {
            Err(())
        }
    }

    /// Replaces the value of the first property whose name matches and
    /// regenerates the token cache; on no match the element is left
    /// untouched.
    pub fn update_property(&mut self, property_name: &str, new_value: &str) -> (r: Result<(), ()>)
        ensures
            ({
                let props = old(self)@.props;
                let i = pairs_find(props, property_name@);
                if i < props.len() {
                    let props2 = props.update(i, (props[i].0, new_value@));
                    r is Ok && final(self)@.name == old(self)@.name && final(self)@.kind == old(
                        self,
                    )@.kind && final(self)@.data == old(self)@.data && final(self)@.props == props2
                        && final(self)@.tokens == canonical_tokens(
                        old(self)@.name,
                        old(self)@.data,
                        props2,
                    )
                } else {
                    r is Err && *final(self) == *old(self)
                }
            }),
    {
        let needle = String::from_str(property_name);
        let mut k: usize = 0;
        while k < self.properties.len()
            invariant
                *self == *old(self),
                k <= self@.props.len(),
                needle@ == property_name@,
                forall|m: int| 0 <= m < k ==> self@.props[m].0 != property_name@,
            decreases self@.props.len() - k,
        {
            if self.properties[k].0 == needle {
                proof {
                    lemma_pairs_find_at(self@.props, property_name@, k as int);
                }
                let ghost pre_vec = self.properties;
                let prop = &mut self.properties[k];
                prop.1 = String::from_str(new_value);
                proof {
                    let x = self.properties@[k as int];
                    lemma_update_deep(pre_vec, self.properties, k as int, x);
                    assert(pre_vec.deep_view()[k as int] == pre_vec@[k as int].deep_view());
                    assert(x.deep_view() == (old(self)@.props[k as int].0, new_value@));
                }
                self.force_update_tokens();
                return Ok(());
            }
            k += 1;
        }
        proof {
            lemma_pairs_find_at(self@.props, property_name@, self@.props.len() as int);
        }
        Err(())
    }
}

} // verus!
