//! Run-wide configuration: the registry of knowledge-base endpoints, per-wiki
//! namespace rules, location templates, and the flags the pipeline reads.
//! Built from a JSON document modeled as `JsonLite`; the embedding program
//! creates the endpoint clients and the template sitelink maps (both need the
//! network) and hands them in.

use crate::entity::{spec_pair_lookup, spec_pairs_view, pair_lookup};
use crate::jsonlite::{spec_json_member, JsonLite, JsonView};
use crate::text::{split_str, spec_split, str_eq};
use vstd::prelude::*;

verus! {

/// Relies on `mediawiki::api::Api` being a plain (if large) client object:
/// the library only stores and hands out these clients; every call on them
/// is made by the embedding program.
#[verifier::external_type_specification]
#[verifier::external_body]
pub struct ExApi(wikibase::mediawiki::api::Api);

/// Namespaces of one wiki the bot must not edit.
#[derive(Debug, Clone)]
pub enum NamespaceGroup {
    /// Every namespace is forbidden.
    All,
    /// The listed namespaces are forbidden.
    List(Vec<i64>),
}

/// Whether `g` admits editing namespace `nsid`: never under `All`, and
/// under `List` exactly when the id is non-negative and not listed.
pub open spec fn spec_can_edit(g: NamespaceGroup, nsid: i64) -> bool {
    match g {
        NamespaceGroup::All => false,
        NamespaceGroup::List(list) => nsid >= 0 && !list@.contains(nsid),
    }
}

impl NamespaceGroup {
    /// Whether the namespace may be edited.
    pub fn can_edit_namespace(&self, nsid: i64) -> (r: bool)
        ensures
            r == spec_can_edit(*self, nsid),
    {
        match self {
            NamespaceGroup::All => false,
            NamespaceGroup::List(list) => {
                if nsid < 0 {
                    return false;
                }
                let n = list.len();
                let mut i: usize = 0;
                while i < n
                    invariant
                        n == list@.len(),
                        0 <= i <= n,
                        forall|j: int| 0 <= j < i ==> list@[j] != nsid,
                    decreases n - i,
                {
                    if list[i] == nsid {
                        assert(list@.contains(nsid));
                        return false;
                    }
                    i += 1;
                }
                proof {
                    assert(!list@.contains(nsid));
                }
                true
            },
        }
    }
}

pub struct Configuration {
    /// Knowledge-base endpoint clients by setup name; filled by the
    /// embedding program.
    pub wb_apis: Vec<(String, std::sync::Arc<wikibase::mediawiki::api::Api>)>,
    pub namespace_blocks: Vec<(String, NamespaceGroup)>,
    pub default_api: String,
    pub prefer_preferred: bool,
    pub default_language: String,
    pub template_start_sites: Vec<(String, String)>,
    pub template_end_sites: Vec<(String, String)>,
    pub location_templates: Vec<(String, String)>,
    pub shadow_images_check: Vec<String>,
    pub default_thumbnail_size: Option<u64>,
    pub location_regions: Vec<String>,
    pub mysql: Option<JsonLite>,
    pub wiki_user: String,
    pub wiki_password: String,
}

/// The view of a list of strings.
pub open spec fn spec_strs_view(s: Seq<String>) -> Seq<Seq<char>> {
    Seq::new(s.len(), |i: int| s[i]@)
}

/// Whether a string list holds `x`.
pub fn strs_contain(v: &Vec<String>, x: &str) -> (r: bool)
    ensures
        r == spec_strs_view(v@).contains(x@),
{
    let n = v.len();
    let mut i: usize = 0;
    while i < n
        invariant
            n == v@.len(),
            0 <= i <= n,
            forall|j: int| 0 <= j < i ==> spec_strs_view(v@)[j] != x@,
        decreases n - i,
    {
        if str_eq(v[i].as_str(), x) {
            assert(spec_strs_view(v@)[i as int] == x@);
            return true;
        }
        i += 1;
    }
    proof {
        if spec_strs_view(v@).contains(x@) {
            let j = choose|j: int| 0 <= j < spec_strs_view(v@).len() && spec_strs_view(v@)[j]
                == x@;
            assert(spec_strs_view(v@)[j] == x@);
        }
    }
    false
}

/// A string member of a JSON object, if it is a string.
pub open spec fn spec_str_member(j: JsonView, key: Seq<char>) -> Option<Seq<char>> {
    match spec_json_member(j, key) {
        JsonView::Str(s) => Some(s),
        _ => None,
    }
}

impl Configuration {
    pub fn wiki_user(&self) -> (r: &String)
        ensures
            r@ == self.wiki_user@,
    {
        &self.wiki_user
    }

    pub fn wiki_password(&self) -> (r: &String)
        ensures
            r@ == self.wiki_password@,
    {
        &self.wiki_password
    }

    /// The member of the `mysql` settings object under `key`, when the
    /// configuration has one.
    pub fn mysql(&self, key: &str) -> (r: Option<&JsonLite>)
        ensures
            match self.mysql {
                Some(ref m) => match r {
                    Some(x) => x.deep_view() == spec_json_member(m.deep_view(), key@),
                    None => spec_json_member(m.deep_view(), key@) == JsonView::Null,
                },
                None => r is None,
            },
    {
        match &self.mysql {
            Some(m) => m.member(key),
            None => None,
        }
    }

    pub fn check_for_shadow_images(&self, wiki: &String) -> (r: bool)
        ensures
            r == spec_strs_view(self.shadow_images_check@).contains(wiki@),
    {
        strs_contain(&self.shadow_images_check, wiki.as_str())
    }

    /// The local page title of the list-start template on `wiki`: the part
    /// after the last `:` of the mapped sitelink title.
    pub fn get_local_template_title_start(&self, wiki: &str) -> (r: Result<String, String>)
        ensures
            match r {
                Ok(t) => spec_pair_lookup(spec_pairs_view(self.template_start_sites@), wiki@)
                    matches Some(full) && t@ == spec_split(full, ':').last(),
                Err(e) => spec_pair_lookup(spec_pairs_view(self.template_start_sites@), wiki@)
                    is None && e@ == "Cannot find local start template"@,
            },
    {
        match pair_lookup(&self.template_start_sites, wiki) {
            Some(full) => Ok(last_split_part(full.as_str())),
            None => Err(String::from_str("Cannot find local start template")),
        }
    }

    /// The local page title of the list-end template on `wiki`.
    pub fn get_local_template_title_end(&self, wiki: &str) -> (r: Result<String, String>)
        ensures
            match r {
                Ok(t) => spec_pair_lookup(spec_pairs_view(self.template_end_sites@), wiki@)
                    matches Some(full) && t@ == spec_split(full, ':').last(),
                Err(e) => spec_pair_lookup(spec_pairs_view(self.template_end_sites@), wiki@)
                    is None && e@ == "Cannot find local end template"@,
            },
    {
        match pair_lookup(&self.template_end_sites, wiki) {
            Some(full) => Ok(last_split_part(full.as_str())),
            None => Err(String::from_str("Cannot find local end template")),
        }
    }

    /// Whether the bot may edit the namespace on the wiki: wikis without a
    /// block entry default to yes.
    pub fn can_edit_namespace(&self, wiki: &str, nsid: i64) -> (r: bool)
        ensures
            r == match spec_ns_lookup(self.namespace_blocks@, wiki@) {
                Some(g) => spec_can_edit(g, nsid),
                None => true,
            },
    {
        let n = self.namespace_blocks.len();
        let mut i: usize = 0;
        proof {
            assert(self.namespace_blocks@.skip(0) =~= self.namespace_blocks@);
        }
        while i < n
            invariant
                n == self.namespace_blocks@.len(),
                0 <= i <= n,
                spec_ns_lookup(self.namespace_blocks@.skip(i as int), wiki@) == spec_ns_lookup(
                    self.namespace_blocks@,
                    wiki@,
                ),
            decreases n - i,
        {
            proof {
                assert(self.namespace_blocks@.skip(i as int)[0] == self.namespace_blocks@[
                    i as int
                ]);
                assert(self.namespace_blocks@.skip(i as int).skip(1)
                    =~= self.namespace_blocks@.skip(i as int + 1));
            }
            let pair = &self.namespace_blocks[i];
            if str_eq(pair.0.as_str(), wiki) {
                return pair.1.can_edit_namespace(nsid);
            }
            i += 1;
        }
        proof {
            assert(self.namespace_blocks@.skip(i as int)
                =~= Seq::<(String, NamespaceGroup)>::empty());
        }
        true
    }

    /// The location template pattern for `wiki`, or the `default` pattern.
    /// One of the two entries must exist.
    pub fn get_location_template(&self, wiki: &str) -> (r: String)
        requires
            spec_pair_lookup(spec_pairs_view(self.location_templates@), wiki@) is Some
                || spec_pair_lookup(spec_pairs_view(self.location_templates@), "default"@)
                is Some,
        ensures
            r@ == match spec_pair_lookup(spec_pairs_view(self.location_templates@), wiki@) {
                Some(t) => t,
                None => spec_pair_lookup(
                    spec_pairs_view(self.location_templates@),
                    "default"@,
                )->Some_0,
            },
    {
        match pair_lookup(&self.location_templates, wiki) {
            Some(t) => t.clone(),
            None => {
                match pair_lookup(&self.location_templates, "default") {
                    Some(t) => t.clone(),
                    None => {
                        proof {
                            assert(false);
                        }
                        String::new()
                    },
                }
            },
        }
    }

    pub fn prefer_preferred(&self) -> (r: bool)
        ensures
            r == self.prefer_preferred,
    {
        self.prefer_preferred
    }

    pub fn default_language(&self) -> (r: &str)
        ensures
            r@ == self.default_language@,
    {
        self.default_language.as_str()
    }

    /// The configured thumbnail size, or 128 when none is set.
    pub fn default_thumbnail_size(&self) -> (r: u64)
        ensures
            r == match self.default_thumbnail_size {
                Some(s) => s,
                None => 128u64,
            },
    {
        match self.default_thumbnail_size {
            Some(s) => s,
            None => 128,
        }
    }

    pub fn location_regions(&self) -> (r: &Vec<String>)
        ensures
            r == &self.location_regions,
    {
        &self.location_regions
    }

    /// The endpoint client registered under `key`, if any.
    pub fn get_wbapi(&self, key: &str) -> (r: Option<
        &std::sync::Arc<wikibase::mediawiki::api::Api>,
    >)
        ensures
            (r is Some) == (exists|i: int|
                0 <= i < self.wb_apis@.len() && #[trigger] self.wb_apis@[i].0@ == key@),
    {
        let n = self.wb_apis.len();
        let mut i: usize = 0;
        while i < n
            invariant
                n == self.wb_apis@.len(),
                0 <= i <= n,
                forall|j: int| 0 <= j < i ==> #[trigger] self.wb_apis@[j].0@ != key@,
            decreases n - i,
        {
            let pair = &self.wb_apis[i];
            if str_eq(pair.0.as_str(), key) {
                return Some(&pair.1);
            }
            i += 1;
        }
        None
    }

    /// The endpoint client registered under the default setup name.
    pub fn get_default_wbapi(&self) -> (r: Result<
        &std::sync::Arc<wikibase::mediawiki::api::Api>,
        String,
    >)
        ensures
            match r {
                Ok(_) => exists|i: int|
                    0 <= i < self.wb_apis@.len() && #[trigger] self.wb_apis@[i].0@
                        == self.default_api@,
                Err(e) => e@ == "No default API set in config file"@ && !(exists|i: int|
                    0 <= i < self.wb_apis@.len() && #[trigger] self.wb_apis@[i].0@
                        == self.default_api@),
            },
    {
        match self.get_wbapi(self.default_api.clone().as_str()) {
            Some(api) => Ok(api),
            None => Err(String::from_str("No default API set in config file")),
        }
    }

    /// Register an endpoint client under a setup name.
    pub fn add_wbapi(
        &mut self,
        name: String,
        api: std::sync::Arc<wikibase::mediawiki::api::Api>,
    )
        ensures
            final(self).wb_apis@.len() == old(self).wb_apis@.len() + 1,
            final(self).wb_apis@[final(self).wb_apis@.len() - 1].0@ == name@,
            forall|i: int|
                0 <= i < old(self).wb_apis@.len() ==> #[trigger] final(self).wb_apis@[i]
                    == old(self).wb_apis@[i],
            unchanged_but_apis(old(self), final(self)),
    {
        self.wb_apis.push((name, api));
    }

    /// Install the per-wiki sitelink maps of the start and end templates.
    pub fn set_template_sites(
        &mut self,
        start: Vec<(String, String)>,
        end: Vec<(String, String)>,
    )
        ensures
            final(self).template_start_sites == start,
            final(self).template_end_sites == end,
    {
        self.template_start_sites = start;
        self.template_end_sites = end;
    }
}

/// Everything but the endpoint registry kept as it was.
pub open spec fn unchanged_but_apis(a: &Configuration, b: &Configuration) -> bool {
    &&& b.namespace_blocks == a.namespace_blocks
    &&& b.default_api == a.default_api
    &&& b.prefer_preferred == a.prefer_preferred
    &&& b.default_language == a.default_language
    &&& b.template_start_sites == a.template_start_sites
    &&& b.template_end_sites == a.template_end_sites
    &&& b.location_templates == a.location_templates
    &&& b.shadow_images_check == a.shadow_images_check
    &&& b.default_thumbnail_size == a.default_thumbnail_size
    &&& b.location_regions == a.location_regions
    &&& b.wiki_user == a.wiki_user
    &&& b.wiki_password == a.wiki_password
}

/// First-match lookup among the namespace blocks.
pub open spec fn spec_ns_lookup(pairs: Seq<(String, NamespaceGroup)>, key: Seq<char>) -> Option<
    NamespaceGroup,
>
    decreases pairs.len(),
{
    if pairs.len() == 0 {
        None
    } else if pairs[0].0@ == key {
        Some(pairs[0].1)
    } else {
        spec_ns_lookup(pairs.skip(1), key)
    }
}

impl Configuration {
    /// Build the plain settings from a configuration document, with the
    /// original's error order: a bad namespace block first, then a default
    /// API name that the document's `apis` object does not register, then
    /// the two template item ids. The endpoint clients and the template
    /// sitelink maps need the network: the embedding program adds them
    /// afterwards through `add_wbapi` and `set_template_sites`. Returns
    /// the configuration and the start and end template item ids, whose
    /// sitelinks the program must fetch.
    #[verifier::rlimit(100)]
    pub fn new_from_json(j: &JsonLite) -> (r: Result<(Configuration, String, String), String>)
        ensures
            (r is Err) == (spec_ns_err(spec_obj_pairs(j.deep_view(), "namespace_blocks"@))
                is Some || !spec_has_default_api(j.deep_view()) || spec_str_member(
                j.deep_view(),
                "template_start_q"@,
            ) is None || spec_str_member(j.deep_view(), "template_end_q"@) is None),
            r matches Err(e) ==> {
                &&& (spec_ns_err(spec_obj_pairs(j.deep_view(), "namespace_blocks"@))
                    matches Some(w) ==> e@ == spec_ns_msg(w.0, w.1))
                &&& (spec_ns_err(spec_obj_pairs(j.deep_view(), "namespace_blocks"@)) is None
                    && !spec_has_default_api(j.deep_view()) ==> e@
                    == "No default API set in config file"@)
                &&& (spec_ns_err(spec_obj_pairs(j.deep_view(), "namespace_blocks"@)) is None
                    && spec_has_default_api(j.deep_view()) && spec_str_member(
                    j.deep_view(),
                    "template_start_q"@,
                ) is None ==> e@ == "No template_start_q in config"@)
                &&& (spec_ns_err(spec_obj_pairs(j.deep_view(), "namespace_blocks"@)) is None
                    && spec_has_default_api(j.deep_view()) && spec_str_member(
                    j.deep_view(),
                    "template_start_q"@,
                ) is Some && spec_str_member(j.deep_view(), "template_end_q"@) is None ==> e@
                    == "No template_end_q in config"@)
            },
            r matches Ok(t) ==> {
                &&& spec_str_member(j.deep_view(), "template_start_q"@) == Some(t.1@)
                &&& spec_str_member(j.deep_view(), "template_end_q"@) == Some(t.2@)
                &&& t.0.wb_apis@.len() == 0
                &&& t.0.template_start_sites@.len() == 0
                &&& t.0.template_end_sites@.len() == 0
                &&& t.0.default_api@ == spec_str_or(j.deep_view(), "default_api"@, ""@)
                &&& t.0.default_language@ == spec_str_or(
                    j.deep_view(),
                    "default_language"@,
                    ""@,
                )
                &&& t.0.prefer_preferred == spec_bool_or(
                    j.deep_view(),
                    "prefer_preferred"@,
                    false,
                )
                &&& t.0.wiki_user@ == spec_str_or(
                    spec_json_member(j.deep_view(), "wiki_login"@),
                    "user"@,
                    ""@,
                )
                &&& t.0.wiki_password@ == spec_str_or(
                    spec_json_member(j.deep_view(), "wiki_login"@),
                    "pass"@,
                    ""@,
                )
                &&& spec_pairs_view(t.0.location_templates@) == spec_str_pairs(
                    spec_obj_pairs(j.deep_view(), "location_templates"@),
                )
                &&& spec_strs_view(t.0.shadow_images_check@) == spec_str_list(
                    j.deep_view(),
                    "shadow_images_check"@,
                )
                &&& spec_strs_view(t.0.location_regions@) == spec_str_list(
                    j.deep_view(),
                    "location_regions"@,
                )
                &&& t.0.default_thumbnail_size == spec_u64_member(
                    j.deep_view(),
                    "default_thumbnail_size"@,
                )
                &&& spec_ns_views(t.0.namespace_blocks@) == spec_ns_entries(
                    spec_obj_pairs(j.deep_view(), "namespace_blocks"@),
                )
                &&& (t.0.mysql is Some) == (spec_json_member(j.deep_view(), "mysql"@) is Obj)
                &&& (t.0.mysql matches Some(m) ==> m.deep_view() == spec_json_member(
                    j.deep_view(),
                    "mysql"@,
                ))
            },
    {
        proof {
            reveal_strlit("");
            assert(""@ =~= Seq::<char>::empty());
        }
        let mut location_templates: Vec<(String, String)> = Vec::new();
        if let Some(lt) = j.member("location_templates") {
            if let JsonLite::Obj(pairs) = lt {
                let ghost pv = crate::jsonlite::spec_json_pair_views(pairs@);
                proof {
                    crate::jsonlite::lemma_json_pair_views_index(pairs@);
                    assert(pv.skip(0) =~= pv);
                    assert(spec_pairs_view(location_templates@) + spec_str_pairs(pv)
                        =~= spec_str_pairs(pv));
                }
                let n = pairs.len();
                let mut i: usize = 0;
                while i < n
                    invariant
                        n == pairs@.len(),
                        0 <= i <= n,
                        pv == crate::jsonlite::spec_json_pair_views(pairs@),
                        pv.len() == n,
                        spec_pairs_view(location_templates@) + spec_str_pairs(pv.skip(i as int))
                            =~= spec_str_pairs(pv),
                    decreases n - i,
                {
                    proof {
                        crate::jsonlite::lemma_json_pair_views_index(pairs@);
                        assert(pv.skip(i as int)[0] == pv[i as int]);
                        assert(pv.skip(i as int).skip(1) =~= pv.skip(i as int + 1));
                    }
                    if let JsonLite::Str(v) = &pairs[i].1 {
                        let ghost lb = location_templates@;
                        location_templates.push((pairs[i].0.clone(), v.clone()));
                        proof {
                            assert(spec_pairs_view(location_templates@) =~= spec_pairs_view(
                                lb,
                            ).push((pv[i as int].0, pv[i as int].1->Str_0)));
                        }
                    }
                    i += 1;
                }
                proof {
                    assert(pv.skip(n as int) =~= Seq::<(Seq<char>, JsonView)>::empty());
                    assert(spec_str_pairs(pv.skip(n as int))
                        =~= Seq::<(Seq<char>, Seq<char>)>::empty());
                    assert(spec_pairs_view(location_templates@)
                        + Seq::<(Seq<char>, Seq<char>)>::empty() =~= spec_pairs_view(
                        location_templates@,
                    ));
                }
            }
        }
        proof {
            if !(spec_json_member(j.deep_view(), "location_templates"@) is Obj) {
                assert(spec_str_pairs(
                    spec_obj_pairs(j.deep_view(), "location_templates"@),
                ) =~= Seq::<(Seq<char>, Seq<char>)>::empty());
                assert(spec_pairs_view(location_templates@)
                    =~= Seq::<(Seq<char>, Seq<char>)>::empty());
            }
        }
        let mut namespace_blocks: Vec<(String, NamespaceGroup)> = Vec::new();
        if let Some(nb) = j.member("namespace_blocks") {
            if let JsonLite::Obj(pairs) = nb {
                let ghost pv = crate::jsonlite::spec_json_pair_views(pairs@);
                proof {
                    crate::jsonlite::lemma_json_pair_views_index(pairs@);
                    assert(pv.skip(0) =~= pv);
                    assert(spec_ns_views(namespace_blocks@) + spec_ns_entries(pv)
                        =~= spec_ns_entries(pv));
                }
                let n = pairs.len();
                let mut i: usize = 0;
                while i < n
                    invariant
                        n == pairs@.len(),
                        0 <= i <= n,
                        pv == crate::jsonlite::spec_json_pair_views(pairs@),
                        pv.len() == n,
                        spec_ns_err(pv.skip(i as int)) == spec_ns_err(pv),
                        spec_ns_views(namespace_blocks@) + spec_ns_entries(pv.skip(i as int))
                            =~= spec_ns_entries(pv),
                    decreases n - i,
                {
                    proof {
                        crate::jsonlite::lemma_json_pair_views_index(pairs@);
                        assert(pv.skip(i as int)[0] == pv[i as int]);
                        assert(pv.skip(i as int).skip(1) =~= pv.skip(i as int + 1));
                    }
                    match &pairs[i].1 {
                        JsonLite::Str(s) => {
                            if str_eq(s.as_str(), "*") {
                                let ghost nb0 = namespace_blocks@;
                                namespace_blocks.push(
                                    (pairs[i].0.clone(), NamespaceGroup::All),
                                );
                                proof {
                                    assert(spec_ns_views(namespace_blocks@) =~= spec_ns_views(
                                        nb0,
                                    ).push((pv[i as int].0, None)));
                                }
                            } else {
                                let mut msg = String::from_str(
                                    "Unrecognized string value for namespace_blocks",
                                );
                                msg.append("[");
                                msg.append(pairs[i].0.as_str());
                                msg.append("]:");
                                msg.append(s.as_str());
                                proof {
                                    assert(spec_ns_err(pv) == Some(
                                        (pv[i as int].0, pv[i as int].1->Str_0),
                                    ));
                                    assert(msg@ =~= spec_ns_msg(
                                        pv[i as int].0,
                                        pv[i as int].1->Str_0,
                                    ));
                                }
                                return Err(msg);
                            }
                        },
                        JsonLite::Arr(items) => {
                            let ghost iv = crate::jsonlite::spec_json_views(items@);
                            proof {
                                crate::jsonlite::lemma_json_views_index(items@);
                                assert(iv.skip(0) =~= iv);
                            }
                            let m = items.len();
                            let mut k: usize = 0;
                            let mut nsids: Vec<i64> = Vec::new();
                            proof {
                                assert(nsids@ + spec_ns_ids(iv) =~= spec_ns_ids(iv));
                            }
                            while k < m
                                invariant
                                    m == items@.len(),
                                    0 <= k <= m,
                                    iv == crate::jsonlite::spec_json_views(items@),
                                    iv.len() == m,
                                    nsids@ + spec_ns_ids(iv.skip(k as int)) =~= spec_ns_ids(iv),
                                decreases m - k,
                            {
                                proof {
                                    crate::jsonlite::lemma_json_views_index(items@);
                                    assert(iv.skip(k as int)[0] == iv[k as int]);
                                    assert(iv.skip(k as int).skip(1) =~= iv.skip(k as int + 1));
                                }
                                if let JsonLite::Num(t) = &items[k] {
                                    if let Some(v) = crate::text::parse_u64(t.as_str()) {
                                        if v <= i64::MAX as u64 {
                                            let ghost nb1 = nsids@;
                                            nsids.push(v as i64);
                                            proof {
                                                assert(nsids@ =~= nb1.push(v as i64));
                                            }
                                        }
                                    }
                                }
                                k += 1;
                            }
                            proof {
                                assert(iv.skip(m as int) =~= Seq::<JsonView>::empty());
                                assert(spec_ns_ids(iv.skip(m as int)) =~= Seq::<i64>::empty());
                                assert(nsids@ + Seq::<i64>::empty() =~= nsids@);
                            }
                            let ghost nb0 = namespace_blocks@;
                            namespace_blocks.push(
                                (pairs[i].0.clone(), NamespaceGroup::List(nsids)),
                            );
                            proof {
                                assert(spec_ns_views(namespace_blocks@) =~= spec_ns_views(
                                    nb0,
                                ).push((pv[i as int].0, Some(spec_ns_ids(iv)))));
                            }
                        },
                        _ => {},
                    }
                    i += 1;
                }
                proof {
                    assert(pv.skip(n as int) =~= Seq::<(Seq<char>, JsonView)>::empty());
                    assert(spec_ns_entries(pv.skip(n as int))
                        =~= Seq::<(Seq<char>, Option<Seq<i64>>)>::empty());
                    assert(spec_ns_views(namespace_blocks@)
                        + Seq::<(Seq<char>, Option<Seq<i64>>)>::empty() =~= spec_ns_views(
                        namespace_blocks@,
                    ));
                }
            }
        }
        proof {
            if !(spec_json_member(j.deep_view(), "namespace_blocks"@) is Obj) {
                assert(spec_ns_entries(spec_obj_pairs(j.deep_view(), "namespace_blocks"@))
                    =~= Seq::<(Seq<char>, Option<Seq<i64>>)>::empty());
                assert(spec_ns_views(namespace_blocks@)
                    =~= Seq::<(Seq<char>, Option<Seq<i64>>)>::empty());
            }
        }
        let mut mysql: Option<JsonLite> = None;
        if let Some(m) = j.member("mysql") {
            if let JsonLite::Obj(_) = m {
                mysql = Some(json_duplicate(m));
            }
        }
        let mut wiki_user = String::new();
        let mut wiki_password = String::new();
        if let Some(login) = j.member("wiki_login") {
            wiki_user = str_field_or(login, "user", "");
            wiki_password = str_field_or(login, "pass", "");
        }
        let ret = Configuration {
            wb_apis: Vec::new(),
            namespace_blocks,
            default_api: str_field_or(j, "default_api", ""),
            prefer_preferred: bool_field_or(j, "prefer_preferred", false),
            default_language: str_field_or(j, "default_language", ""),
            template_start_sites: Vec::new(),
            template_end_sites: Vec::new(),
            location_templates,
            shadow_images_check: str_list_field(j, "shadow_images_check"),
            default_thumbnail_size: u64_field(j, "default_thumbnail_size"),
            location_regions: str_list_field(j, "location_regions"),
            mysql,
            wiki_user,
            wiki_password,
        };
        // the default API must be registered by the document's `apis` object
        if !has_default_api(j, ret.default_api.as_str()) {
            return Err(String::from_str("No default API set in config file"));
        }
        let q_start = match j.member("template_start_q") {
            Some(JsonLite::Str(q)) => q.clone(),
            _ => {
                return Err(String::from_str("No template_start_q in config"));
            },
        };
        let q_end = match j.member("template_end_q") {
            Some(JsonLite::Str(q)) => q.clone(),
            _ => {
                return Err(String::from_str("No template_end_q in config"));
            },
        };
        Ok((ret, q_start, q_end))
    }
}

/// The member's pairs when it is an object, nothing otherwise.
pub open spec fn spec_obj_pairs(j: JsonView, key: Seq<char>) -> Seq<(Seq<char>, JsonView)> {
    match spec_json_member(j, key) {
        JsonView::Obj(pairs) => pairs,
        _ => Seq::empty(),
    }
}

/// The string-valued pairs of an object, in order.
pub open spec fn spec_str_pairs(pairs: Seq<(Seq<char>, JsonView)>) -> Seq<(Seq<char>, Seq<char>)>
    decreases pairs.len(),
{
    if pairs.len() == 0 {
        Seq::empty()
    } else {
        let rest = spec_str_pairs(pairs.skip(1));
        match pairs[0].1 {
            JsonView::Str(s) => seq![(pairs[0].0, s)] + rest,
            _ => rest,
        }
    }
}

/// The string elements of a sequence of values, in order.
pub open spec fn spec_strs_of(items: Seq<JsonView>) -> Seq<Seq<char>>
    decreases items.len(),
{
    if items.len() == 0 {
        Seq::empty()
    } else {
        let rest = spec_strs_of(items.skip(1));
        match items[0] {
            JsonView::Str(s) => seq![s] + rest,
            _ => rest,
        }
    }
}

/// The string elements of an array member.
pub open spec fn spec_str_list(j: JsonView, key: Seq<char>) -> Seq<Seq<char>> {
    match spec_json_member(j, key) {
        JsonView::Arr(items) => spec_strs_of(items),
        _ => Seq::empty(),
    }
}

/// The parsed number member, if present and in range.
pub open spec fn spec_u64_member(j: JsonView, key: Seq<char>) -> Option<u64> {
    match spec_json_member(j, key) {
        JsonView::Num(s) => crate::text::spec_parse_u64(s),
        _ => None,
    }
}

/// The first namespace block whose value is a string other than `*`: the
/// entry the parse rejects.
pub open spec fn spec_ns_err(pairs: Seq<(Seq<char>, JsonView)>) -> Option<(Seq<char>, Seq<char>)>
    decreases pairs.len(),
{
    if pairs.len() == 0 {
        None
    } else {
        match pairs[0].1 {
            JsonView::Str(s) => if s == "*"@ {
                spec_ns_err(pairs.skip(1))
            } else {
                Some((pairs[0].0, s))
            },
            _ => spec_ns_err(pairs.skip(1)),
        }
    }
}

/// The message a rejected namespace block raises.
pub open spec fn spec_ns_msg(k: Seq<char>, s: Seq<char>) -> Seq<char> {
    "Unrecognized string value for namespace_blocks"@ + "["@ + k + "]:"@ + s
}

/// The namespace ids of an array: its in-range whole numbers, in order.
pub open spec fn spec_ns_ids(items: Seq<JsonView>) -> Seq<i64>
    decreases items.len(),
{
    if items.len() == 0 {
        Seq::empty()
    } else {
        let rest = spec_ns_ids(items.skip(1));
        match items[0] {
            JsonView::Num(s) => match crate::text::spec_parse_u64(s) {
                Some(v) => if v <= i64::MAX as u64 {
                    seq![v as i64] + rest
                } else {
                    rest
                },
                None => rest,
            },
            _ => rest,
        }
    }
}

/// The parsed namespace blocks: `*` maps a wiki to the all-blocked group,
/// an array to the listed ids; other values are dropped.
pub open spec fn spec_ns_entries(pairs: Seq<(Seq<char>, JsonView)>) -> Seq<
    (Seq<char>, Option<Seq<i64>>),
>
    decreases pairs.len(),
{
    if pairs.len() == 0 {
        Seq::empty()
    } else {
        let rest = spec_ns_entries(pairs.skip(1));
        match pairs[0].1 {
            JsonView::Str(s) => if s == "*"@ {
                seq![(pairs[0].0, None)] + rest
            } else {
                rest
            },
            JsonView::Arr(items) => seq![(pairs[0].0, Some(spec_ns_ids(items)))] + rest,
            _ => rest,
        }
    }
}

/// The shape of a namespace group: `None` blocks everything, `Some` the
/// listed ids.
pub open spec fn spec_ns_group_view(g: NamespaceGroup) -> Option<Seq<i64>> {
    match g {
        NamespaceGroup::All => None,
        NamespaceGroup::List(v) => Some(v@),
    }
}

/// The views of the namespace blocks.
pub open spec fn spec_ns_views(blocks: Seq<(String, NamespaceGroup)>) -> Seq<
    (Seq<char>, Option<Seq<i64>>),
> {
    Seq::new(blocks.len(), |i: int| (blocks[i].0@, spec_ns_group_view(blocks[i].1)))
}

/// Whether the document's `apis` object registers an endpoint under the
/// document's default API name.
pub open spec fn spec_has_default_api(j: JsonView) -> bool {
    exists|i: int|
        0 <= i < spec_obj_pairs(j, "apis"@).len() && (#[trigger] spec_obj_pairs(j, "apis"@)[
            i
        ]).0 == spec_str_or(j, "default_api"@, ""@) && spec_obj_pairs(j, "apis"@)[i].1 is Str
}

/// Whether the `apis` object holds a string entry under `name`.
fn has_default_api(j: &JsonLite, name: &str) -> (r: bool)
    requires
        name@ == spec_str_or(j.deep_view(), "default_api"@, ""@),
    ensures
        r == spec_has_default_api(j.deep_view()),
{
    match j.member("apis") {
        Some(JsonLite::Obj(pairs)) => {
            let ghost pv = crate::jsonlite::spec_json_pair_views(pairs@);
            proof {
                crate::jsonlite::lemma_json_pair_views_index(pairs@);
            }
            let n = pairs.len();
            let mut i: usize = 0;
            while i < n
                invariant
                    n == pairs@.len(),
                    0 <= i <= n,
                    pv == crate::jsonlite::spec_json_pair_views(pairs@),
                    pv.len() == n,
                    pv == spec_obj_pairs(j.deep_view(), "apis"@),
                    forall|t: int|
                        0 <= t < i ==> !((#[trigger] pv[t]).0 == name@ && pv[t].1 is Str),
                decreases n - i,
            {
                proof {
                    crate::jsonlite::lemma_json_pair_views_index(pairs@);
                }
                let is_str = match &pairs[i].1 {
                    JsonLite::Str(_) => true,
                    _ => false,
                };
                if is_str && str_eq(pairs[i].0.as_str(), name) {
                    proof {
                        assert(pv[i as int].0 == name@ && pv[i as int].1 is Str);
                    }
                    return true;
                }
                i += 1;
            }
            proof {
                if spec_has_default_api(j.deep_view()) {
                    let t0 = choose|t: int|
                        0 <= t < pv.len() && (#[trigger] pv[t]).0 == name@ && pv[t].1 is Str;
                    assert(false);
                }
            }
            false
        },
        _ => {
            proof {
                assert(spec_obj_pairs(j.deep_view(), "apis"@)
                    =~= Seq::<(Seq<char>, JsonView)>::empty());
            }
            false
        },
    }
}

/// The string under `key`, or the default.
pub open spec fn spec_str_or(j: JsonView, key: Seq<char>, dflt: Seq<char>) -> Seq<char> {
    match spec_json_member(j, key) {
        JsonView::Str(s) => s,
        _ => dflt,
    }
}

/// The boolean under `key`, or the default.
pub open spec fn spec_bool_or(j: JsonView, key: Seq<char>, dflt: bool) -> bool {
    match spec_json_member(j, key) {
        JsonView::Bool(b) => b,
        _ => dflt,
    }
}

fn str_field_or(j: &JsonLite, key: &str, dflt: &str) -> (r: String)
    ensures
        r@ == spec_str_or(j.deep_view(), key@, dflt@),
{
    match j.member(key) {
        Some(JsonLite::Str(s)) => s.clone(),
        _ => String::from_str(dflt),
    }
}

fn bool_field_or(j: &JsonLite, key: &str, dflt: bool) -> (r: bool)
    ensures
        r == spec_bool_or(j.deep_view(), key@, dflt),
{
    match j.member(key) {
        Some(JsonLite::Bool(b)) => *b,
        _ => dflt,
    }
}

/// A numeric member parsed as `u64`, if present and in range.
fn u64_field(j: &JsonLite, key: &str) -> (r: Option<u64>)
    ensures
        r == (match spec_json_member(j.deep_view(), key@) {
            JsonView::Num(s) => crate::text::spec_parse_u64(s),
            _ => None::<u64>,
        }),
{
    match j.member(key) {
        Some(JsonLite::Num(s)) => crate::text::parse_u64(s.as_str()),
        _ => None,
    }
}

/// The string elements of an array member, in order.
fn str_list_field(j: &JsonLite, key: &str) -> (r: Vec<String>)
    ensures
        spec_strs_view(r@) == spec_str_list(j.deep_view(), key@),
{
    let mut out: Vec<String> = Vec::new();
    match j.member(key) {
        Some(m) => {
            match m {
                JsonLite::Arr(items) => {
                    let ghost iv = crate::jsonlite::spec_json_views(items@);
                    proof {
                        crate::jsonlite::lemma_json_views_index(items@);
                        assert(iv.skip(0) =~= iv);
                        assert(spec_strs_view(out@) + spec_strs_of(iv) =~= spec_strs_of(iv));
                    }
                    let n = items.len();
                    let mut i: usize = 0;
                    while i < n
                        invariant
                            n == items@.len(),
                            0 <= i <= n,
                            iv == crate::jsonlite::spec_json_views(items@),
                            iv.len() == n,
                            spec_strs_view(out@) + spec_strs_of(iv.skip(i as int))
                                =~= spec_strs_of(iv),
                        decreases n - i,
                    {
                        proof {
                            crate::jsonlite::lemma_json_views_index(items@);
                            assert(iv.skip(i as int)[0] == iv[i as int]);
                            assert(iv.skip(i as int).skip(1) =~= iv.skip(i as int + 1));
                        }
                        if let JsonLite::Str(s) = &items[i] {
                            let ghost ob = out@;
                            out.push(s.clone());
                            proof {
                                assert(spec_strs_view(out@) =~= spec_strs_view(ob).push(
                                    iv[i as int]->Str_0,
                                ));
                            }
                        }
                        i += 1;
                    }
                    proof {
                        assert(iv.skip(n as int) =~= Seq::<JsonView>::empty());
                        assert(spec_strs_of(iv.skip(n as int)) =~= Seq::<Seq<char>>::empty());
                        assert(spec_strs_view(out@) + Seq::<Seq<char>>::empty()
                            =~= spec_strs_view(out@));
                    }
                },
                _ => {
                    proof {
                        assert(spec_strs_view(out@) =~= Seq::<Seq<char>>::empty());
                    }
                },
            }
        },
        None => {
            proof {
                assert(spec_strs_view(out@) =~= Seq::<Seq<char>>::empty());
            }
        },
    }
    out
}

/// An owned copy of a JSON document with the same view.
pub fn json_duplicate(j: &JsonLite) -> (r: JsonLite)
    ensures
        r.deep_view() == j.deep_view(),
    decreases j,
{
    match j {
        JsonLite::Null => JsonLite::Null,
        JsonLite::Bool(b) => JsonLite::Bool(*b),
        JsonLite::Num(s) => JsonLite::Num(s.clone()),
        JsonLite::Str(s) => JsonLite::Str(s.clone()),
        JsonLite::Arr(v) => {
            let n = v.len();
            let mut out: Vec<JsonLite> = Vec::new();
            let mut i: usize = 0;
            while i < n
                invariant
                    n == v@.len(),
                    0 <= i <= n,
                    crate::jsonlite::spec_json_views(out@) =~= crate::jsonlite::spec_json_views(
                        v@,
                    ).take(i as int),
                decreases n - i,
            {
                proof {
                    crate::jsonlite::lemma_json_views_index(v@);
                }
                let ghost pv = out@;
                let x = json_duplicate(&v[i]);
                let ghost xg = x;
                out.push(x);
                proof {
                    crate::jsonlite::lemma_json_views_index(pv);
                    crate::jsonlite::lemma_json_views_index(out@);
                    assert(out@ == pv.push(xg));
                    assert forall|t: int|
                        0 <= t < out@.len() implies crate::jsonlite::spec_json_views(out@)[t]
                        == crate::jsonlite::spec_json_views(v@).take(i as int + 1)[t] by {
                        if t < pv.len() {
                            assert(out@[t] == pv[t]);
                        } else {
                            assert(out@[t] == xg);
                        }
                    }
                    assert(crate::jsonlite::spec_json_views(out@)
                        =~= crate::jsonlite::spec_json_views(v@).take(i as int + 1));
                }
                i += 1;
            }
            proof {
                crate::jsonlite::lemma_json_views_index(v@);
                assert(crate::jsonlite::spec_json_views(v@).take(n as int)
                    =~= crate::jsonlite::spec_json_views(v@));
            }
            JsonLite::Arr(out)
        },
        JsonLite::Obj(v) => {
            let n = v.len();
            let mut out: Vec<(String, JsonLite)> = Vec::new();
            let mut i: usize = 0;
            while i < n
                invariant
                    n == v@.len(),
                    0 <= i <= n,
                    crate::jsonlite::spec_json_pair_views(out@)
                        =~= crate::jsonlite::spec_json_pair_views(v@).take(i as int),
                decreases n - i,
            {
                proof {
                    crate::jsonlite::lemma_json_pair_views_index(v@);
                }
                let ghost pv = out@;
                let pair = &v[i];
                let x = json_duplicate(&pair.1);
                let key = pair.0.clone();
                let ghost xg = x;
                let ghost kg = key;
                out.push((key, x));
                proof {
                    crate::jsonlite::lemma_json_pair_views_index(pv);
                    crate::jsonlite::lemma_json_pair_views_index(out@);
                    assert(out@ == pv.push((kg, xg)));
                    assert forall|t: int|
                        0 <= t < out@.len() implies crate::jsonlite::spec_json_pair_views(out@)[t]
                        == crate::jsonlite::spec_json_pair_views(v@).take(i as int + 1)[t] by {
                        if t < pv.len() {
                            assert(out@[t] == pv[t]);
                        } else {
                            assert(out@[t] == (kg, xg));
                        }
                    }
                    assert(crate::jsonlite::spec_json_pair_views(out@)
                        =~= crate::jsonlite::spec_json_pair_views(v@).take(i as int + 1));
                }
                i += 1;
            }
            proof {
                crate::jsonlite::lemma_json_pair_views_index(v@);
                assert(crate::jsonlite::spec_json_pair_views(v@).take(n as int)
                    =~= crate::jsonlite::spec_json_pair_views(v@));
            }
            JsonLite::Obj(out)
        },
    }
}

/// The part of `s` after its last `:` (all of `s` when it has none).
pub fn last_split_part(s: &str) -> (r: String)
    ensures
        r@ == spec_split(s@, ':').last(),
{
    let parts = split_str(s, ':');
    proof {
        crate::text::lemma_split_nonempty(s@, ':');
        assert(parts.deep_view().len() == parts@.len());
        assert(parts.deep_view()[parts@.len() - 1] == parts@[parts@.len() - 1]@);
    }
    let last = parts.len() - 1;
    parts[last].clone()
}

} // verus!
