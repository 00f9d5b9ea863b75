//! A plain model of a JSON document. The embedding program converts wire
//! JSON one-to-one into this type; everything the library reads from a query
//! response or a configuration document it reads from here, so those reads
//! are verified.

use vstd::prelude::*;

verus! {

#[derive(Debug)]
pub enum JsonLite {
    Null,
    Bool(bool),
    /// A number, kept as its decimal text.
    Num(String),
    Str(String),
    Arr(Vec<JsonLite>),
    Obj(Vec<(String, JsonLite)>),
}

/// The mathematical shape of a `JsonLite` document.
pub enum JsonView {
    Null,
    Bool(bool),
    Num(Seq<char>),
    Str(Seq<char>),
    Arr(Seq<JsonView>),
    Obj(Seq<(Seq<char>, JsonView)>),
}

pub open spec fn spec_json_view(j: JsonLite) -> JsonView
    decreases j,
{
    match j {
        JsonLite::Null => JsonView::Null,
        JsonLite::Bool(b) => JsonView::Bool(b),
        JsonLite::Num(s) => JsonView::Num(s@),
        JsonLite::Str(s) => JsonView::Str(s@),
        JsonLite::Arr(v) => JsonView::Arr(spec_json_views(v@)),
        JsonLite::Obj(v) => JsonView::Obj(spec_json_pair_views(v@)),
    }
}

pub open spec fn spec_json_views(s: Seq<JsonLite>) -> Seq<JsonView>
    decreases s,
{
    if s.len() == 0 {
        Seq::empty()
    } else {
        seq![spec_json_view(s[0])] + spec_json_views(s.skip(1))
    }
}

pub open spec fn spec_json_pair_views(s: Seq<(String, JsonLite)>) -> Seq<(Seq<char>, JsonView)>
    decreases s,
{
    if s.len() == 0 {
        Seq::empty()
    } else {
        seq![(s[0].0@, spec_json_view(s[0].1))] + spec_json_pair_views(s.skip(1))
    }
}

/// Element-wise reading of `spec_json_views`.
pub proof fn lemma_json_views_index(s: Seq<JsonLite>)
    ensures
        spec_json_views(s).len() == s.len(),
        forall|i: int| 0 <= i < s.len() ==> spec_json_views(s)[i] == spec_json_view(s[i]),
    decreases s,
{
    if s.len() > 0 {
        lemma_json_views_index(s.skip(1));
        assert forall|i: int| 0 <= i < s.len() implies spec_json_views(s)[i] == spec_json_view(
            s[i],
        ) by {
            if i > 0 {
                assert(s.skip(1)[i - 1] == s[i]);
            }
        }
    }
}

/// Element-wise reading of `spec_json_pair_views`.
pub proof fn lemma_json_pair_views_index(s: Seq<(String, JsonLite)>)
    ensures
        spec_json_pair_views(s).len() == s.len(),
        forall|i: int| 0 <= i < s.len() ==> spec_json_pair_views(s)[i] == (
            s[i].0@,
            spec_json_view(s[i].1),
        ),
    decreases s,
{
    if s.len() > 0 {
        lemma_json_pair_views_index(s.skip(1));
        assert forall|i: int| 0 <= i < s.len() implies spec_json_pair_views(s)[i] == (
            s[i].0@,
            spec_json_view(s[i].1),
        ) by {
            if i > 0 {
                assert(s.skip(1)[i - 1] == s[i]);
            }
        }
    }
}

impl DeepView for JsonLite {
    type V = JsonView;

    open spec fn deep_view(&self) -> JsonView {
        spec_json_view(*self)
    }
}

/// The member of an object under `key` (first match), `Null` otherwise;
/// mirrors indexing a JSON value by a string key.
pub open spec fn spec_json_member(j: JsonView, key: Seq<char>) -> JsonView {
    match j {
        JsonView::Obj(pairs) => spec_member_of(pairs, key),
        _ => JsonView::Null,
    }
}

pub open spec fn spec_member_of(pairs: Seq<(Seq<char>, JsonView)>, key: Seq<char>) -> JsonView
    decreases pairs.len(),
{
    if pairs.len() == 0 {
        JsonView::Null
    } else if pairs[0].0 == key {
        pairs[0].1
    } else {
        spec_member_of(pairs.skip(1), key)
    }
}

impl JsonLite {
    /// Look a key up in an object; `None` stands for the `Null` that
    /// indexing a JSON value by a missing key (or indexing a non-object)
    /// yields.
    pub fn member(&self, key: &str) -> (r: Option<&JsonLite>)
        ensures
            match r {
                Some(x) => x.deep_view() == spec_json_member(self.deep_view(), key@),
                None => spec_json_member(self.deep_view(), key@) == JsonView::Null,
            },
    {
        match self {
            JsonLite::Obj(pairs) => {
                let ghost all = spec_json_pair_views(pairs@);
                proof {
                    lemma_json_pair_views_index(pairs@);
                    assert(all.skip(0) =~= all);
                }
                let n = pairs.len();
                let mut i: usize = 0;
                while i < n
                    invariant
                        n == pairs@.len(),
                        0 <= i <= n,
                        all == spec_json_pair_views(pairs@),
                        all.len() == n,
                        forall|k: int| 0 <= k < n ==> all[k] == (
                            pairs@[k].0@,
                            spec_json_view(pairs@[k].1),
                        ),
                        spec_member_of(all.skip(i as int), key@) == spec_json_member(
                            self.deep_view(),
                            key@,
                        ),
                    decreases n - i,
                {
                    let pair = &pairs[i];
                    if crate::text::str_eq(pair.0.as_str(), key) {
                        proof {
                            assert(all.skip(i as int)[0] == all[i as int]);
                        }
                        return Some(&pair.1);
                    }
                    proof {
                        assert(all.skip(i as int)[0] == all[i as int]);
                        assert(all.skip(i as int).skip(1) =~= all.skip(i as int + 1));
                    }
                    i += 1;
                }
                proof {
                    assert(all.skip(i as int) =~= Seq::<(Seq<char>, JsonView)>::empty());
                }
                None
            },
            _ => None,
        }
    }
}

} // verus!
