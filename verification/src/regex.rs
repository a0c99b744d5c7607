//! Regex transform profiles kept by the archive: which author-supplied
//! replacement applies to which converter target, and for which users.
//! The profiles are pure data here — compiling and applying the
//! expressions, and the `regex.toml` file they persist in, belong to
//! collaborators.

use vstd::prelude::*;

use crate::ast::{is_space_char, trim_seq};
use crate::lexer::str_chars;

verus! {

/// Which converter a profile or plugin applies to.
#[derive(Debug, Clone, Copy, PartialEq, Eq, Structural)]
pub enum Target {
    Legislation,
    EO,
    CaseLaw,
}

/// One stored regex transform profile.
#[derive(Debug, Clone, PartialEq)]
pub struct Profile {
    /// The users the profile applies to: a comma-separated list of user
    /// names, or `*` for everyone.
    pub author: String,
    pub regex: String,
    pub for_title: bool,
    pub name: String,
    pub replace: String,
    pub target: Target,
}

/// The model of a [`Profile`].
pub struct ProfileModel {
    pub author: Seq<char>,
    pub regex: Seq<char>,
    pub for_title: bool,
    pub name: Seq<char>,
    pub replace: Seq<char>,
    pub target: Target,
}

impl View for Profile {
    type V = ProfileModel;

    open spec fn view(&self) -> ProfileModel {
        ProfileModel {
            author: self.author@,
            regex: self.regex@,
            for_title: self.for_title,
            name: self.name@,
            replace: self.replace@,
            target: self.target,
        }
    }
}

impl DeepView for Profile {
    type V = ProfileModel;

    open spec fn deep_view(&self) -> ProfileModel {
        self.view()
    }
}

/// `[i, j)` is one comma-separated entry of `a`: it touches a comma or an
/// end of the string on both sides and holds no comma itself.
pub open spec fn comma_segment(a: Seq<char>, i: int, j: int) -> bool {
    &&& 0 <= i <= j <= a.len()
    &&& (i == 0 || a[i - 1] == ',')
    &&& (j == a.len() || a[j] == ',')
    &&& forall|k: int| i <= k < j ==> #[trigger] a[k] != ','
}

/// An author field admits a user when it is the single character `*`, or
/// when one of its comma-separated entries equals the user name once
/// surrounding whitespace is trimmed (ASCII whitespace, see
/// [`crate::ast::is_space_char`]).
pub open spec fn author_matches(author: Seq<char>, user: Seq<char>) -> bool {
    author == seq!['*'] || exists|i: int, j: int|
        #[trigger] comma_segment(author, i, j) && trim_seq(author.subrange(i, j)) == user
}

/// Compares two character vectors for sequence equality.
pub(crate) fn chars_eq(a: &Vec<char>, b: &Vec<char>) -> (r: bool)
    ensures
        r == (a@ == b@),
{
    if a.len() != b.len() {
        return false;
    }
    let mut i: usize = 0;
    while i < a.len()
        invariant
            0 <= i <= a.len(),
            a.len() == b.len(),
            forall|k: int| 0 <= k < i ==> a@[k] == b@[k],
        decreases a.len() - i,
    {
        if a[i] != b[i] {
            return false;
        }
        i += 1;
    }
    proof {
        assert(a@ =~= b@);
    }
    true
}

/// Whether `trim_seq(a[i..j])` equals the user name.
#[verifier::loop_isolation(false)]
fn segment_matches(a: &Vec<char>, i: usize, j: usize, user: &Vec<char>) -> (r: bool)
    requires
        i <= j <= a.len(),
    ensures
        r == (trim_seq(a@.subrange(i as int, j as int)) == user@),
{
    let mut s: usize = i;
    while s < j && (a[s] == ' ' || a[s] == '\t' || a[s] == '\n' || a[s] == '\r')
        invariant
            i <= s <= j <= a.len(),
            forall|k: int| i <= k < s ==> is_space_char(#[trigger] a@[k]),
        decreases j - s,
    {
        s += 1;
    }
    let mut e: usize = j;
    while e > s && (a[e - 1] == ' ' || a[e - 1] == '\t' || a[e - 1] == '\n' || a[e - 1] == '\r')
        invariant
            s <= e <= j,
            i <= s,
            j <= a.len(),
            forall|k: int| e <= k < j ==> is_space_char(#[trigger] a@[k]),
        decreases e,
    {
        e -= 1;
    }
    proof {
        let seg = a@.subrange(i as int, j as int);
        assert forall|k: int| 0 <= k < s - i implies is_space_char(#[trigger] seg[k]) by {
            assert(seg[k] == a@[i + k]);
        }
        if s < j {
            assert(seg[s - i] == a@[s as int]);
        }
        crate::ast::lemma_trim_front_skip(seg, s - i);
        let mid = seg.skip(s - i);
        assert forall|k: int| e - s <= k < mid.len() implies is_space_char(#[trigger] mid[k]) by {
            assert(mid[k] == a@[s + k]);
        }
        if e > s {
            assert(mid[e - s - 1] == a@[e - 1]);
        }
        crate::ast::lemma_trim_back_take(mid, e - s);
        assert(mid.take(e - s) =~= a@.subrange(s as int, e as int));
    }
    if e - s != user.len() {
        return false;
    }
    let mut k: usize = 0;
    while k < e - s
        invariant
            0 <= k <= e - s,
            s <= e <= a.len(),
            e - s == user.len(),
            forall|m: int| 0 <= m < k ==> a@[s + m] == user@[m],
        decreases e - s - k,
    {
        if a[s + k] != user[k] {
            proof {
                assert(a@.subrange(s as int, e as int)[k as int] == a@[s + k]);
            }
            return false;
        }
        k += 1;
    }
    proof {
        assert(a@.subrange(s as int, e as int) =~= user@);
    }
    true
}

/// Whether the author field admits the user, following
/// [`author_matches`]: the field is `*`, or one of its comma-separated
/// entries, whitespace-trimmed, is the user name.
#[verifier::loop_isolation(false)]
pub(crate) fn author_admits(author: &str, user: &str) -> (r: bool)
    ensures
        r == author_matches(author@, user@),
{
    let a = str_chars(author);
    let u = str_chars(user);
    let n = a.len();
    if n == 1 && a[0] == '*' {
        proof {
            assert(a@ =~= seq!['*']);
        }
        return true;
    }
    proof {
        assert(a@ != seq!['*']);
    }
    let mut i: usize = 0;
    while i <= n
        invariant
            0 <= i <= n + 1,
            n == a.len(),
            a@ == author@,
            u@ == user@,
            i == 0 || (i - 1 < n && a@[i - 1] == ','),
            forall|i0: int, j0: int|
                #[trigger] comma_segment(a@, i0, j0) && i0 < i ==> trim_seq(
                    a@.subrange(i0, j0),
                ) != u@,
        decreases n + 1 - i,
    {
        let mut j: usize = i;
        while j < n && a[j] != ','
            invariant
                i <= j <= n,
                n == a.len(),
                forall|k: int| i <= k < j ==> #[trigger] a@[k] != ',',
            decreases n - j,
        {
            j += 1;
        }
        assert(comma_segment(a@, i as int, j as int));
        if segment_matches(&a, i, j, &u) {
            return true;
        }
        proof {
            assert forall|i0: int, j0: int|
                #[trigger] comma_segment(a@, i0, j0) && i0 < j + 1 implies trim_seq(
                a@.subrange(i0, j0),
            ) != u@ by {
                if i0 >= i {
                    // the only entry starting in [i, j] is [i, j) itself:
                    // positions i..j hold no comma, so no later start is
                    // preceded by one, and no earlier end touches one
                    if i0 > i {
                        assert(a@[i0 - 1] == ',');
                        assert(a@[i0 - 1] != ',');
                    } else {
                        if j0 < j {
                            assert(a@[j0] == ',');
                            assert(a@[j0] != ',');
                        } else if j0 > j {
                            assert(j < a@.len() && a@[j as int] == ',');
                            assert(a@[j as int] != ',');
                        }
                    }
                }
            }
        }
        if j == n {
            proof {
                assert(!author_matches(author@, user@)) by {
                    if author_matches(a@, u@) {
                        let (i0, j0) = choose|i0: int, j0: int|
                            #[trigger] comma_segment(a@, i0, j0) && trim_seq(
                                a@.subrange(i0, j0),
                            ) == u@;
                        assert(i0 < j + 1);
                    }
                }
            }
            return false;
        }
        i = j + 1;
    }
    // every iteration either returns or advances past a comma, so the
    // loop condition never fails
    proof {
        assert(false);
    }
    false
}

/// Byte-order comparison of names, as Rust's string ordering performs it:
/// the first differing character decides; a prefix sorts before its
/// extensions.
pub open spec fn lex_le(a: Seq<char>, b: Seq<char>) -> bool
    decreases a.len(),
{
    if a.len() == 0 {
        true
    } else if b.len() == 0 {
        false
    } else if (a[0] as u32) < (b[0] as u32) {
        true
    } else if (b[0] as u32) < (a[0] as u32) {
        false
    } else {
        lex_le(a.skip(1), b.skip(1))
    }
}

/// Decides [`lex_le`] on character vectors.
pub(crate) fn chars_le(a: &Vec<char>, b: &Vec<char>) -> (r: bool)
    ensures
        r == lex_le(a@, b@),
{
    let mut i: usize = 0;
    proof {
        assert(a@.skip(0) =~= a@);
        assert(b@.skip(0) =~= b@);
    }
    while i < a.len() && i < b.len() && (a[i] as u32) == (b[i] as u32)
        invariant
            0 <= i <= a.len(),
            i <= b.len(),
            lex_le(a@, b@) == lex_le(a@.skip(i as int), b@.skip(i as int)),
        decreases a.len() - i,
    {
        proof {
            let x = a@.skip(i as int);
            let y = b@.skip(i as int);
            assert(x[0] == a@[i as int] && y[0] == b@[i as int]);
            assert(x.skip(1) =~= a@.skip(i + 1));
            assert(y.skip(1) =~= b@.skip(i + 1));
        }
        i += 1;
    }
    let ghost x = a@.skip(i as int);
    let ghost y = b@.skip(i as int);
    if i == a.len() {
        proof {
            assert(x.len() == 0);
            assert(lex_le(x, y));
        }
        true
    } else if i == b.len() {
        proof {
            assert(y.len() == 0 && x.len() > 0);
            assert(!lex_le(x, y));
        }
        false
    } else {
        proof {
            assert(x[0] == a@[i as int] && y[0] == b@[i as int]);
            assert(a@[i as int] as u32 != b@[i as int] as u32);
            assert(lex_le(x, y) == ((x[0] as u32) < (y[0] as u32)));
        }
        (a[i] as u32) < (b[i] as u32)
    }
}

/// Name comparison is total: of any two names, one does not exceed the
/// other.
pub proof fn lemma_lex_le_total(a: Seq<char>, b: Seq<char>)
    ensures
        lex_le(a, b) || lex_le(b, a),
    decreases a.len(),
{
    if a.len() > 0 && b.len() > 0 && a[0] as u32 == b[0] as u32 {
        lemma_lex_le_total(a.skip(1), b.skip(1));
    }
}

/// Name comparison is transitive.
pub proof fn lemma_lex_le_trans(a: Seq<char>, b: Seq<char>, c: Seq<char>)
    requires
        lex_le(a, b),
        lex_le(b, c),
    ensures
        lex_le(a, c),
    decreases a.len(),
{
    if a.len() > 0 && b.len() > 0 && c.len() > 0 && a[0] as u32 == b[0] as u32 && b[0] as u32
        == c[0] as u32 {
        lemma_lex_le_trans(a.skip(1), b.skip(1), c.skip(1));
    }
}

/// A run of profiles in which no name exceeds a later one.
pub open spec fn sorted_by_name(s: Seq<ProfileModel>) -> bool {
    forall|i: int, j: int|
        0 <= i < j < s.len() ==> lex_le(#[trigger] s[i].name, #[trigger] s[j].name)
}

/// Inserts `p` into a run already sorted by name, after every entry whose
/// name does not exceed `p`'s: the stable insertion step of a sort.
pub open spec fn spec_insert_by_name(p: ProfileModel, sorted: Seq<ProfileModel>) -> Seq<
    ProfileModel,
>
    decreases sorted.len(),
{
    if sorted.len() == 0 {
        seq![p]
    } else if lex_le(sorted[0].name, p.name) {
        seq![sorted[0]] + spec_insert_by_name(p, sorted.skip(1))
    } else {
        seq![p] + sorted
    }
}

/// The profiles sorted by name: a stable insertion sort, matching a
/// stable sort on the name field.
pub open spec fn spec_sort_by_name(s: Seq<ProfileModel>) -> Seq<ProfileModel>
    decreases s.len(),
{
    if s.len() == 0 {
        Seq::empty()
    } else {
        spec_insert_by_name(s[s.len() - 1], spec_sort_by_name(s.take(s.len() - 1)))
    }
}

/// Inserting at the first position whose entry exceeds `p` is exactly
/// `spec_insert_by_name`.
proof fn lemma_insert_by_name_at(p: ProfileModel, sorted: Seq<ProfileModel>, idx: int)
    requires
        0 <= idx <= sorted.len(),
        forall|k: int| 0 <= k < idx ==> lex_le(#[trigger] sorted[k].name, p.name),
        idx < sorted.len() ==> !lex_le(sorted[idx].name, p.name),
    ensures
        spec_insert_by_name(p, sorted) == sorted.insert(idx, p),
    decreases sorted.len(),
{
    if sorted.len() == 0 {
        assert(sorted.insert(0, p) =~= seq![p]);
    } else if idx == 0 {
        assert(!lex_le(sorted[0].name, p.name));
        assert(sorted.insert(0, p) =~= seq![p] + sorted);
    } else {
        assert(lex_le(sorted[0].name, p.name));
        let tail = sorted.skip(1);
        assert forall|k: int| 0 <= k < idx - 1 implies lex_le(
            #[trigger] tail[k].name,
            p.name,
        ) by {
            assert(tail[k] == sorted[k + 1]);
        }
        if idx - 1 < tail.len() {
            assert(tail[idx - 1] == sorted[idx]);
        }
        lemma_insert_by_name_at(p, tail, idx - 1);
        assert(seq![sorted[0]] + tail.insert(idx - 1, p) =~= sorted.insert(idx, p));
    }
}

/// Stable insertion keeps a run sorted, adds exactly one entry, and adds
/// nothing but `p`.
proof fn lemma_insert_by_name_sorted(p: ProfileModel, s: Seq<ProfileModel>)
    requires
        sorted_by_name(s),
    ensures
        sorted_by_name(spec_insert_by_name(p, s)),
        spec_insert_by_name(p, s).len() == s.len() + 1,
        forall|k: int|
            0 <= k < spec_insert_by_name(p, s).len() ==> #[trigger] spec_insert_by_name(p, s)[k]
                == p || s.contains(spec_insert_by_name(p, s)[k]),
    decreases s.len(),
{
    let out = spec_insert_by_name(p, s);
    if s.len() == 0 {
        assert(out =~= seq![p]);
    } else if lex_le(s[0].name, p.name) {
        let tail = s.skip(1);
        assert forall|i: int, j: int| 0 <= i < j < tail.len() implies lex_le(
            #[trigger] tail[i].name,
            #[trigger] tail[j].name,
        ) by {
            assert(tail[i] == s[i + 1] && tail[j] == s[j + 1]);
        }
        lemma_insert_by_name_sorted(p, tail);
        let sub = spec_insert_by_name(p, tail);
        assert(out == seq![s[0]] + sub);
        assert forall|i: int, j: int| 0 <= i < j < out.len() implies lex_le(
            #[trigger] out[i].name,
            #[trigger] out[j].name,
        ) by {
            if i == 0 {
                assert(out[j] == sub[j - 1]);
                if sub[j - 1] == p {
                } else {
                    assert(tail.contains(sub[j - 1]));
                    let m = choose|m: int| 0 <= m < tail.len() && tail[m] == sub[j - 1];
                    assert(tail[m] == s[m + 1]);
                    assert(lex_le(s[0].name, s[m + 1].name));
                }
            } else {
                assert(out[i] == sub[i - 1] && out[j] == sub[j - 1]);
            }
        }
        assert forall|k: int| 0 <= k < out.len() implies #[trigger] out[k] == p || s.contains(
            out[k],
        ) by {
            if k == 0 {
                assert(s.contains(s[0]));
            } else {
                assert(out[k] == sub[k - 1]);
                if sub[k - 1] != p {
                    assert(tail.contains(sub[k - 1]));
                    let m = choose|m: int| 0 <= m < tail.len() && tail[m] == sub[k - 1];
                    assert(s[m + 1] == sub[k - 1]);
                    assert(s.contains(s[m + 1]));
                }
            }
        }
    } else {
        lemma_lex_le_total(s[0].name, p.name);
        assert(lex_le(p.name, s[0].name));
        assert(out == seq![p] + s);
        assert forall|i: int, j: int| 0 <= i < j < out.len() implies lex_le(
            #[trigger] out[i].name,
            #[trigger] out[j].name,
        ) by {
            if i == 0 {
                assert(out[j] == s[j - 1]);
                if j - 1 > 0 {
                    assert(lex_le(s[0].name, s[j - 1].name));
                    lemma_lex_le_trans(p.name, s[0].name, s[j - 1].name);
                }
            } else {
                assert(out[i] == s[i - 1] && out[j] == s[j - 1]);
            }
        }
        assert forall|k: int| 0 <= k < out.len() implies #[trigger] out[k] == p || s.contains(
            out[k],
        ) by {
            if k > 0 {
                assert(out[k] == s[k - 1]);
                assert(s.contains(s[k - 1]));
            }
        }
    }
}

/// The sort law: sorting by name yields a run of the same length in
/// which no profile's name exceeds a later one.
pub proof fn lemma_sort_by_name_sorted(s: Seq<ProfileModel>)
    ensures
        sorted_by_name(spec_sort_by_name(s)),
        spec_sort_by_name(s).len() == s.len(),
    decreases s.len(),
{
    if s.len() > 0 {
        lemma_sort_by_name_sorted(s.take(s.len() - 1));
        lemma_insert_by_name_sorted(s[s.len() - 1], spec_sort_by_name(s.take(s.len() - 1)));
    }
}

/// The profiles that apply to a user and a target, in the order they are
/// stored.
pub open spec fn spec_filter_profiles(
    ps: Seq<ProfileModel>,
    user: Seq<char>,
    target: Target,
) -> Seq<ProfileModel> {
    ps.filter(|p: ProfileModel| author_matches(p.author, user) && p.target == target)
}

/// The regex profiles kept by the archive; the shape of the `regex.toml`
/// file a collaborator reads and writes.
#[derive(Debug, Clone, PartialEq)]
pub struct RegexManager {
    pub profile: Option<Vec<Profile>>,
}

/// The model of a [`RegexManager`].
pub struct RegexManagerModel {
    pub profile: Option<Seq<ProfileModel>>,
}

impl View for RegexManager {
    type V = RegexManagerModel;

    open spec fn view(&self) -> RegexManagerModel {
        RegexManagerModel { profile: self.profile.deep_view() }
    }
}

/// The profiles a [`RegexManager`] answers for a user and a target:
/// the stored entries that admit the user and name the target, sorted by
/// profile name.
pub open spec fn spec_get_regexs(
    m: RegexManagerModel,
    user: Seq<char>,
    target: Target,
) -> Seq<ProfileModel> {
    match m.profile {
        Option::None => Seq::empty(),
        Option::Some(ps) => spec_sort_by_name(spec_filter_profiles(ps, user, target)),
    }
}

impl RegexManager {
    /// An empty manager holding no profiles.
    pub fn new() -> (r: Self)
        ensures
            r@.profile is None,
    {
        RegexManager { profile: None }
    }

    /// Stores one profile at the end of the list, creating the list if
    /// none exists yet; nothing else changes, and nothing is written to
    /// disk. Always succeeds.
    pub fn save_regex(
        &mut self,
        exp: String,
        user: &str,
        name: &str,
        for_title: bool,
        target: Target,
        replace: String,
    ) -> (r: Result<(), crate::error::Error>)
        ensures
            r is Ok,
            final(self)@.profile matches Some(ps) && ps == (match old(self)@.profile {
                Option::Some(prev) => prev,
                Option::None => Seq::<ProfileModel>::empty(),
            }).push(
                ProfileModel {
                    author: user@,
                    regex: exp@,
                    for_title: for_title,
                    name: name@,
                    replace: replace@,
                    target: target,
                },
            ),
    {
        let profile = Profile {
            author: user.to_owned(),
            regex: exp,
            for_title,
            name: name.to_owned(),
            replace,
            target,
        };
        match &mut self.profile {
            Some(profiles_vec) => {
                let ghost prev = profiles_vec.deep_view();
                profiles_vec.push(profile);
                proof {
                    assert(profiles_vec.deep_view() =~= prev.push(
                        profiles_vec@[profiles_vec.len() - 1]@,
                    ));
                }
            },
            None => {
                let mut v: Vec<Profile> = Vec::new();
                v.push(profile);
                proof {
                    assert(v.deep_view() =~= Seq::<ProfileModel>::empty().push(v@[0]@));
                }
                self.profile = Some(v);
            },
        }
        Ok(())
    }

    /// The stored profiles that admit `user` (see [`author_matches`]) and
    /// name `target`, sorted by profile name; empty when no list exists.
    pub fn get_regexs<'a>(&'a self, user: &str, target: Target) -> (r: Vec<&'a Profile>)
        ensures
            r.deep_view() == spec_get_regexs(self@, user@, target),
    {
        match &self.profile {
            None => Vec::new(),
            Some(p) => {
                let ghost ps = p.deep_view();
                let ghost pred = |pm: ProfileModel|
                    author_matches(pm.author, user@) && pm.target == target;
                let mut picked: Vec<&'a Profile> = Vec::new();
                let mut i: usize = 0;
                proof {
                    assert(ps.take(0) =~= Seq::<ProfileModel>::empty());
                    assert(Seq::<ProfileModel>::empty().filter(pred) =~= Seq::<
                        ProfileModel,
                    >::empty());
                }
                while i < p.len()
                    invariant
                        0 <= i <= p.len(),
                        ps == p.deep_view(),
                        ps.len() == p.len(),
                        picked.deep_view() == ps.take(i as int).filter(pred),
                        pred == (|pm: ProfileModel|
                            author_matches(pm.author, user@) && pm.target == target),
                    decreases p.len() - i,
                {
                    let ghost prev = picked.deep_view();
                    let matched = author_admits(p[i].author.as_str(), user) && target_eq(
                        p[i].target,
                        target,
                    );
                    if matched {
                        picked.push(&p[i]);
                        proof {
                            assert(picked.deep_view() =~= prev.push(ps[i as int]));
                        }
                    }
                    proof {
                        let cur = ps.take(i + 1);
                        assert(cur.drop_last() =~= ps.take(i as int));
                        assert(cur.last() == ps[i as int]);
                        reveal(Seq::filter);
                        if pred(ps[i as int]) {
                            assert(cur.filter(pred) == cur.drop_last().filter(pred).push(
                                cur.last(),
                            ));
                        } else {
                            assert(cur.filter(pred) == cur.drop_last().filter(pred));
                        }
                    }
                    i += 1;
                }
                proof {
                    assert(ps.take(p.len() as int) =~= ps);
                }
                sort_profiles_by_name(picked)
            },
        }
    }
}

/// Whether two targets are the same converter.
pub(crate) fn target_eq(a: Target, b: Target) -> (r: bool)
    ensures
        r == (a == b),
{
    match (a, b) {
        (Target::Legislation, Target::Legislation) => true,
        (Target::EO, Target::EO) => true,
        (Target::CaseLaw, Target::CaseLaw) => true,
        _ => false,
    }
}

/// Whether the profile's name does not exceed the given name.
fn name_le(a: &Profile, name: &Vec<char>) -> (r: bool)
    ensures
        r == lex_le(a.name@, name@),
{
    let av = str_chars(a.name.as_str());
    chars_le(&av, name)
}

/// Sorts profiles by name with a stable insertion sort, following
/// [`spec_sort_by_name`].
fn sort_profiles_by_name<'a>(input: Vec<&'a Profile>) -> (r: Vec<&'a Profile>)
    ensures
        r.deep_view() == spec_sort_by_name(input.deep_view()),
{
    let ghost inp = input.deep_view();
    let mut out: Vec<&'a Profile> = Vec::new();
    let mut i: usize = 0;
    proof {
        assert(inp.take(0) =~= Seq::<ProfileModel>::empty());
    }
    while i < input.len()
        invariant
            0 <= i <= input.len(),
            inp == input.deep_view(),
            inp.len() == input.len(),
            out.deep_view() == spec_sort_by_name(inp.take(i as int)),
            out.len() == out.deep_view().len(),
        decreases input.len() - i,
    {
        let p = input[i];
        let pv = str_chars(p.name.as_str());
        let mut idx: usize = 0;
        while idx < out.len() && name_le(out[idx], &pv)
            invariant
                0 <= idx <= out.len(),
                out.len() == out.deep_view().len(),
                pv@ == p.name@,
                forall|k: int|
                    0 <= k < idx ==> lex_le(#[trigger] out.deep_view()[k].name, p.name@),
            decreases out.len() - idx,
        {
            proof {
                assert(out.deep_view()[idx as int] == out@[idx as int]@);
            }
            idx += 1;
        }
        proof {
            if idx < out.len() {
                assert(out.deep_view()[idx as int] == out@[idx as int]@);
            }
            assert(inp[i as int] == input@[i as int]@);
        }
        let ghost prev = out.deep_view();
        let ghost prev_vec = out@;
        out.insert(idx, p);
        proof {
            prev_vec.insert_ensures(idx as int, p);
            prev.insert_ensures(idx as int, inp[i as int]);
            assert forall|k: int| 0 <= k < out@.len() implies out.deep_view()[k] == prev.insert(
                idx as int,
                inp[i as int],
            )[k] by {
                assert(out.deep_view()[k] == out@[k]@);
                if k < idx {
                    assert(out@[k] == prev_vec[k]);
                    assert(prev[k] == prev_vec[k]@);
                } else if k > idx {
                    assert(out@[k] == prev_vec[k - 1]);
                    assert(prev[k - 1] == prev_vec[k - 1]@);
                }
            }
            assert(out.deep_view() =~= prev.insert(idx as int, inp[i as int]));
            lemma_insert_by_name_at(inp[i as int], prev, idx as int);
            let cur = inp.take(i + 1);
            assert(cur.take(cur.len() - 1) =~= inp.take(i as int));
            assert(cur[cur.len() - 1] == inp[i as int]);
            assert(spec_sort_by_name(cur) == spec_insert_by_name(
                inp[i as int],
                spec_sort_by_name(inp.take(i as int)),
            ));
        }
        i += 1;
    }
    proof {
        assert(inp.take(input.len() as int) =~= inp);
    }
    out
}

} // verus!
