//! Formatting-plugin manifests kept by the archive: which external
//! formatting plugin applies to which converter target, for which users,
//! and at which stage. The manifests are pure data here — loading the
//! plugin files and executing the plugins belongs to collaborators.

use vstd::prelude::*;

use crate::lexer::str_chars;
use crate::regex::{author_admits, author_matches, chars_le, lemma_lex_le_total, lemma_lex_le_trans, lex_le, target_eq, Target};

verus! {

/// One stored plugin manifest: where the plugin lives and when it runs.
#[derive(Debug, Clone, PartialEq)]
pub struct PluginManifest {
    pub name: String,
    /// The users the plugin applies to: a comma-separated list of user
    /// names, or `*` for everyone.
    pub author: String,
    /// Whether the plugin runs before the regex transforms.
    pub pre: bool,
    /// Whether the plugin runs after the regex transforms.
    pub post: bool,
    pub target: Target,
    /// The plugin file's location on disk, as a path string.
    pub path: String,
}

/// The model of a [`PluginManifest`].
pub struct PluginManifestModel {
    pub name: Seq<char>,
    pub author: Seq<char>,
    pub pre: bool,
    pub post: bool,
    pub target: Target,
    pub path: Seq<char>,
}

impl View for PluginManifest {
    type V = PluginManifestModel;

    open spec fn view(&self) -> PluginManifestModel {
        PluginManifestModel {
            name: self.name@,
            author: self.author@,
            pre: self.pre,
            post: self.post,
            target: self.target,
            path: self.path@,
        }
    }
}

impl DeepView for PluginManifest {
    type V = PluginManifestModel;

    open spec fn deep_view(&self) -> PluginManifestModel {
        self.view()
    }
}

/// When a plugin runs relative to the regex transforms.
#[derive(Debug, Clone, Copy, PartialEq, Eq, Structural)]
pub enum PluginStage {
    Post,
    Pre,
}

/// Inserts `m` into a run already sorted by name, after every entry whose
/// name does not exceed `m`'s: the stable insertion step of a sort.
pub open spec fn spec_insert_manifest(
    m: PluginManifestModel,
    sorted: Seq<PluginManifestModel>,
) -> Seq<PluginManifestModel>
    decreases sorted.len(),
{
    if sorted.len() == 0 {
        seq![m]
    } else if lex_le(sorted[0].name, m.name) {
        seq![sorted[0]] + spec_insert_manifest(m, sorted.skip(1))
    } else {
        seq![m] + sorted
    }
}

/// The manifests sorted by name: a stable insertion sort.
pub open spec fn spec_sort_manifests(s: Seq<PluginManifestModel>) -> Seq<PluginManifestModel>
    decreases s.len(),
{
    if s.len() == 0 {
        Seq::empty()
    } else {
        spec_insert_manifest(s[s.len() - 1], spec_sort_manifests(s.take(s.len() - 1)))
    }
}

/// Inserting at the first position whose entry exceeds `m` is exactly
/// `spec_insert_manifest`.
proof fn lemma_insert_manifest_at(
    m: PluginManifestModel,
    sorted: Seq<PluginManifestModel>,
    idx: int,
)
    requires
        0 <= idx <= sorted.len(),
        forall|k: int| 0 <= k < idx ==> lex_le(#[trigger] sorted[k].name, m.name),
        idx < sorted.len() ==> !lex_le(sorted[idx].name, m.name),
    ensures
        spec_insert_manifest(m, sorted) == sorted.insert(idx, m),
    decreases sorted.len(),
{
    if sorted.len() == 0 {
        assert(sorted.insert(0, m) =~= seq![m]);
    } else if idx == 0 {
        assert(!lex_le(sorted[0].name, m.name));
        assert(sorted.insert(0, m) =~= seq![m] + sorted);
    } else {
        assert(lex_le(sorted[0].name, m.name));
        let tail = sorted.skip(1);
        assert forall|k: int| 0 <= k < idx - 1 implies lex_le(
            #[trigger] tail[k].name,
            m.name,
        ) by {
            assert(tail[k] == sorted[k + 1]);
        }
        if idx - 1 < tail.len() {
            assert(tail[idx - 1] == sorted[idx]);
        }
        lemma_insert_manifest_at(m, tail, idx - 1);
        assert(seq![sorted[0]] + tail.insert(idx - 1, m) =~= sorted.insert(idx, m));
    }
}

/// A run of manifests in which no name exceeds a later one.
pub open spec fn sorted_manifests(s: Seq<PluginManifestModel>) -> bool {
    forall|i: int, j: int|
        0 <= i < j < s.len() ==> lex_le(#[trigger] s[i].name, #[trigger] s[j].name)
}

/// Stable insertion keeps a run sorted, adds exactly one entry, and adds
/// nothing but `m`.
proof fn lemma_insert_manifest_sorted(m: PluginManifestModel, s: Seq<PluginManifestModel>)
    requires
        sorted_manifests(s),
    ensures
        sorted_manifests(spec_insert_manifest(m, s)),
        spec_insert_manifest(m, s).len() == s.len() + 1,
        forall|k: int|
            0 <= k < spec_insert_manifest(m, s).len() ==> #[trigger] spec_insert_manifest(m, s)[k]
                == m || s.contains(spec_insert_manifest(m, s)[k]),
    decreases s.len(),
{
    let out = spec_insert_manifest(m, s);
    if s.len() == 0 {
        assert(out =~= seq![m]);
    } else if lex_le(s[0].name, m.name) {
        let tail = s.skip(1);
        assert forall|i: int, j: int| 0 <= i < j < tail.len() implies lex_le(
            #[trigger] tail[i].name,
            #[trigger] tail[j].name,
        ) by {
            assert(tail[i] == s[i + 1] && tail[j] == s[j + 1]);
        }
        lemma_insert_manifest_sorted(m, tail);
        let sub = spec_insert_manifest(m, tail);
        assert(out == seq![s[0]] + sub);
        assert forall|i: int, j: int| 0 <= i < j < out.len() implies lex_le(
            #[trigger] out[i].name,
            #[trigger] out[j].name,
        ) by {
            if i == 0 {
                assert(out[j] == sub[j - 1]);
                if sub[j - 1] == m {
                } else {
                    assert(tail.contains(sub[j - 1]));
                    let q = choose|q: int| 0 <= q < tail.len() && tail[q] == sub[j - 1];
                    assert(tail[q] == s[q + 1]);
                    assert(lex_le(s[0].name, s[q + 1].name));
                }
            } else {
                assert(out[i] == sub[i - 1] && out[j] == sub[j - 1]);
            }
        }
        assert forall|k: int| 0 <= k < out.len() implies #[trigger] out[k] == m || s.contains(
            out[k],
        ) by {
            if k == 0 {
                assert(s.contains(s[0]));
            } else {
                assert(out[k] == sub[k - 1]);
                if sub[k - 1] != m {
                    assert(tail.contains(sub[k - 1]));
                    let q = choose|q: int| 0 <= q < tail.len() && tail[q] == sub[k - 1];
                    assert(s[q + 1] == sub[k - 1]);
                    assert(s.contains(s[q + 1]));
                }
            }
        }
    } else {
        lemma_lex_le_total(s[0].name, m.name);
        assert(lex_le(m.name, s[0].name));
        assert(out == seq![m] + s);
        assert forall|i: int, j: int| 0 <= i < j < out.len() implies lex_le(
            #[trigger] out[i].name,
            #[trigger] out[j].name,
        ) by {
            if i == 0 {
                assert(out[j] == s[j - 1]);
                if j - 1 > 0 {
                    assert(lex_le(s[0].name, s[j - 1].name));
                    lemma_lex_le_trans(m.name, s[0].name, s[j - 1].name);
                }
            } else {
                assert(out[i] == s[i - 1] && out[j] == s[j - 1]);
            }
        }
        assert forall|k: int| 0 <= k < out.len() implies #[trigger] out[k] == m || s.contains(
            out[k],
        ) by {
            if k > 0 {
                assert(out[k] == s[k - 1]);
                assert(s.contains(s[k - 1]));
            }
        }
    }
}

/// The sort law: sorting by name yields a run of the same length in
/// which no manifest's name exceeds a later one.
pub proof fn lemma_sort_manifests_sorted(s: Seq<PluginManifestModel>)
    ensures
        sorted_manifests(spec_sort_manifests(s)),
        spec_sort_manifests(s).len() == s.len(),
    decreases s.len(),
{
    if s.len() > 0 {
        lemma_sort_manifests_sorted(s.take(s.len() - 1));
        lemma_insert_manifest_sorted(s[s.len() - 1], spec_sort_manifests(s.take(s.len() - 1)));
    }
}

/// The manifests that apply to a user and a target, in the order they are
/// stored.
pub open spec fn spec_filter_manifests(
    ms: Seq<PluginManifestModel>,
    user: Seq<char>,
    target: Target,
) -> Seq<PluginManifestModel> {
    ms.filter(|m: PluginManifestModel| author_matches(m.author, user) && m.target == target)
}

/// The plugin manifests kept by the archive; the shape of the plugin
/// manifest file a collaborator reads and writes.
#[derive(Debug, Clone, PartialEq)]
pub struct PluginManager {
    pub plugins: Option<Vec<PluginManifest>>,
}

/// The model of a [`PluginManager`].
pub struct PluginManagerModel {
    pub plugins: Option<Seq<PluginManifestModel>>,
}

impl View for PluginManager {
    type V = PluginManagerModel;

    open spec fn view(&self) -> PluginManagerModel {
        PluginManagerModel { plugins: self.plugins.deep_view() }
    }
}

/// The manifests a [`PluginManager`] answers for a user and a target: the
/// stored entries that admit the user and name the target, sorted by
/// plugin name.
pub open spec fn spec_get_plugins(
    m: PluginManagerModel,
    user: Seq<char>,
    target: Target,
) -> Seq<PluginManifestModel> {
    match m.plugins {
        Option::None => Seq::empty(),
        Option::Some(ms) => spec_sort_manifests(spec_filter_manifests(ms, user, target)),
    }
}

impl PluginManager {
    /// The stored manifests that admit `user` (see
    /// [`author_matches`]) and name `target`, sorted by plugin name; empty
    /// when no list exists.
    pub fn get_plugins<'a>(&'a self, user: &str, target: Target) -> (r: Vec<&'a PluginManifest>)
        ensures
            r.deep_view() == spec_get_plugins(self@, user@, target),
    {
        match &self.plugins {
            None => Vec::new(),
            Some(p) => {
                let ghost ms = p.deep_view();
                let ghost pred = |mm: PluginManifestModel|
                    author_matches(mm.author, user@) && mm.target == target;
                let mut picked: Vec<&'a PluginManifest> = Vec::new();
                let mut i: usize = 0;
                proof {
                    assert(ms.take(0) =~= Seq::<PluginManifestModel>::empty());
                    assert(Seq::<PluginManifestModel>::empty().filter(pred) =~= Seq::<
                        PluginManifestModel,
                    >::empty());
                }
                while i < p.len()
                    invariant
                        0 <= i <= p.len(),
                        ms == p.deep_view(),
                        ms.len() == p.len(),
                        picked.deep_view() == ms.take(i as int).filter(pred),
                        pred == (|mm: PluginManifestModel|
                            author_matches(mm.author, user@) && mm.target == target),
                    decreases p.len() - i,
                {
                    let ghost prev = picked.deep_view();
                    let matched = author_admits(p[i].author.as_str(), user) && target_eq(
                        p[i].target,
                        target,
                    );
                    if matched {
                        picked.push(&p[i]);
                        proof {
                            assert(picked.deep_view() =~= prev.push(ms[i as int]));
                        }
                    }
                    proof {
                        let cur = ms.take(i + 1);
                        assert(cur.drop_last() =~= ms.take(i as int));
                        assert(cur.last() == ms[i as int]);
                        reveal(Seq::filter);
                        if pred(ms[i as int]) {
                            assert(cur.filter(pred) == cur.drop_last().filter(pred).push(
                                cur.last(),
                            ));
                        } else {
                            assert(cur.filter(pred) == cur.drop_last().filter(pred));
                        }
                    }
                    i += 1;
                }
                proof {
                    assert(ms.take(p.len() as int) =~= ms);
                }
                sort_manifests_by_name(picked)
            },
        }
    }
}

/// Whether the manifest's name does not exceed the given name.
fn manifest_name_le(a: &PluginManifest, name: &Vec<char>) -> (r: bool)
    ensures
        r == lex_le(a.name@, name@),
{
    let av = str_chars(a.name.as_str());
    chars_le(&av, name)
}

/// Sorts manifests by name with a stable insertion sort, following
/// [`spec_sort_manifests`].
fn sort_manifests_by_name<'a>(input: Vec<&'a PluginManifest>) -> (r: Vec<&'a PluginManifest>)
    ensures
        r.deep_view() == spec_sort_manifests(input.deep_view()),
{
    let ghost inp = input.deep_view();
    let mut out: Vec<&'a PluginManifest> = Vec::new();
    let mut i: usize = 0;
    proof {
        assert(inp.take(0) =~= Seq::<PluginManifestModel>::empty());
    }
    while i < input.len()
        invariant
            0 <= i <= input.len(),
            inp == input.deep_view(),
            inp.len() == input.len(),
            out.deep_view() == spec_sort_manifests(inp.take(i as int)),
            out.len() == out.deep_view().len(),
        decreases input.len() - i,
    {
        let m = input[i];
        let mv = str_chars(m.name.as_str());
        let mut idx: usize = 0;
        while idx < out.len() && manifest_name_le(out[idx], &mv)
            invariant
                0 <= idx <= out.len(),
                out.len() == out.deep_view().len(),
                mv@ == m.name@,
                forall|k: int|
                    0 <= k < idx ==> lex_le(#[trigger] out.deep_view()[k].name, m.name@),
            decreases out.len() - idx,
        {
            proof {
                assert(out.deep_view()[idx as int] == out@[idx as int]@);
            }
            idx += 1;
        }
        proof {
            if idx < out.len() {
                assert(out.deep_view()[idx as int] == out@[idx as int]@);
            }
            assert(inp[i as int] == input@[i as int]@);
        }
        let ghost prev = out.deep_view();
        let ghost prev_vec = out@;
        out.insert(idx, m);
        proof {
            prev_vec.insert_ensures(idx as int, m);
            prev.insert_ensures(idx as int, inp[i as int]);
            assert forall|k: int| 0 <= k < out@.len() implies out.deep_view()[k] == prev.insert(
                idx as int,
                inp[i as int],
            )[k] by {
                assert(out.deep_view()[k] == out@[k]@);
                if k < idx {
                    assert(out@[k] == prev_vec[k]);
                    assert(prev[k] == prev_vec[k]@);
                } else if k > idx {
                    assert(out@[k] == prev_vec[k - 1]);
                    assert(prev[k - 1] == prev_vec[k - 1]@);
                }
            }
            assert(out.deep_view() =~= prev.insert(idx as int, inp[i as int]));
            lemma_insert_manifest_at(inp[i as int], prev, idx as int);
            let cur = inp.take(i + 1);
            assert(cur.take(cur.len() - 1) =~= inp.take(i as int));
            assert(cur[cur.len() - 1] == inp[i as int]);
            assert(spec_sort_manifests(cur) == spec_insert_manifest(
                inp[i as int],
                spec_sort_manifests(inp.take(i as int)),
            ));
        }
        i += 1;
    }
    proof {
        assert(inp.take(input.len() as int) =~= inp);
    }
    out
}

} // verus!
