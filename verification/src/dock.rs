//! Docks: directories of symlinks, one per workspace folder, owned through
//! a lock file that records the workspace and the links.

use vstd::prelude::*;
use vstd::string::StringExecFns;
use crate::error::{AppError, NameIssue};
use crate::workspace::{link_name_issue, resolved_views, LinkName, ResolvedFolder};
use crate::paths::{join, join_path, same_path};
use crate::text::{ascii_lower, chars_of, exec_ascii_lower, is_ascii_alnum, push_char, string_of};

verus! {

/// The name of the lock file inside a dock.
pub const LOCK_FILE: &'static str = ".zwd-lock.json";

/// The lock file format version this library writes and reads.
pub const LOCK_VERSION: u8 = 1;

/// The stem used when a workspace path has none, or slugs to nothing.
pub const DEFAULT_SLUG: &'static str = "workspace";

/// Scanning `s` for a slug: the slug so far and whether it ends in a dash
/// that was just added.
pub open spec fn slug_scan(s: Seq<char>) -> (Seq<char>, bool)
    decreases s.len(),
{
    if s.len() == 0 {
        (Seq::empty(), false)
    } else {
        let (acc, dash) = slug_scan(s.drop_last());
        let c = s.last();
        if is_ascii_alnum(c) {
            (acc.push(ascii_lower(c)), false)
        } else if !dash && acc.len() > 0 {
            (acc.push('-'), true)
        } else {
            (acc, dash)
        }
    }
}

/// `s` without trailing dashes.
pub open spec fn trim_trailing_dashes(s: Seq<char>) -> Seq<char>
    decreases s.len(),
{
    if s.len() > 0 && s.last() == '-' {
        trim_trailing_dashes(s.drop_last())
    } else {
        s
    }
}

/// `s` without leading dashes.
pub open spec fn trim_leading_dashes(s: Seq<char>) -> Seq<char>
    decreases s.len(),
{
    if s.len() > 0 && s[0] == '-' {
        trim_leading_dashes(s.drop_first())
    } else {
        s
    }
}

/// The slug of `s`: its ASCII letters and digits lowercased, each run of
/// other characters after the first kept one turned into one dash, dashes
/// trimmed from both ends; `workspace` when nothing is left.
pub open spec fn slug(s: Seq<char>) -> Seq<char> {
    let t = trim_leading_dashes(trim_trailing_dashes(slug_scan(s).0));
    if t.len() == 0 {
        DEFAULT_SLUG@
    } else {
        t
    }
}

proof fn lemma_slug_scan_step(s: Seq<char>, i: int)
    requires
        0 <= i < s.len(),
    ensures
        slug_scan(s.take(i + 1)) == ({
            let (acc, dash) = slug_scan(s.take(i));
            let c = s[i];
            if is_ascii_alnum(c) {
                (acc.push(ascii_lower(c)), false)
            } else if !dash && acc.len() > 0 {
                (acc.push('-'), true)
            } else {
                (acc, dash)
            }
        }),
{
    assert(s.take(i + 1).drop_last() =~= s.take(i));
}

fn is_alnum(c: char) -> (r: bool)
    ensures
        r == is_ascii_alnum(c),
{
    ('a' <= c && c <= 'z') || ('A' <= c && c <= 'Z') || ('0' <= c && c <= '9')
}

/// The slug of `value`, used to name docks.
pub fn slugify(value: &str) -> (r: String)
    ensures
        r@ == slug(value@),
{
    let cs = chars_of(value);
    let mut acc: Vec<char> = Vec::new();
    let mut previous_dash = false;
    let mut i: usize = 0;
    proof {
        assert(cs@.take(0) =~= Seq::<char>::empty());
    }
    while i < cs.len()
        invariant
            i <= cs@.len(),
            slug_scan(cs@.take(i as int)) == (acc@, previous_dash),
        decreases cs.len() - i,
    {
        let c = cs[i];
        proof {
            lemma_slug_scan_step(cs@, i as int);
        }
        if is_alnum(c) {
            acc.push(exec_ascii_lower(c));
            previous_dash = false;
        } else if !previous_dash && acc.len() > 0 {
            acc.push('-');
            previous_dash = true;
        }
        i = i + 1;
    }
    proof {
        assert(cs@.take(cs@.len() as int) =~= cs@);
    }
    while acc.len() > 0 && acc[acc.len() - 1] == '-'
        invariant
            trim_trailing_dashes(acc@) == trim_trailing_dashes(slug_scan(cs@).0),
        decreases acc.len(),
    {
        let ghost before = acc@;
        acc.pop();
        proof {
            assert(acc@ =~= before.drop_last());
        }
    }
    let mut start: usize = 0;
    proof {
        assert(acc@.skip(0) =~= acc@);
    }
    while start < acc.len() && acc[start] == '-'
        invariant
            start <= acc@.len(),
            trim_leading_dashes(acc@.skip(start as int)) == trim_leading_dashes(
                trim_trailing_dashes(slug_scan(cs@).0),
            ),
            acc@ == trim_trailing_dashes(slug_scan(cs@).0),
        decreases acc.len() - start,
    {
        proof {
            assert(acc@.skip(start as int).drop_first() =~= acc@.skip(start + 1));
        }
        start = start + 1;
    }
    proof {
        assert(acc@.skip(start as int) =~= acc@.subrange(start as int, acc@.len() as int));
    }
    if start == acc.len() {
        return String::from_str(DEFAULT_SLUG);
    }
    let n = acc.len();
    let kept = crate::paths::sub_chars(&acc, start, n);
    string_of(&kept)
}

/// A character a slug may hold.
pub open spec fn is_slug_char(c: char) -> bool {
    ('a' <= c && c <= 'z') || ('0' <= c && c <= '9') || c == '-'
}

/// The shape of every slug: not empty, lowercase letters, digits and single
/// dashes, no dash at either end.
pub open spec fn is_slug(s: Seq<char>) -> bool {
    &&& s.len() > 0
    &&& forall|i: int| 0 <= i < s.len() ==> is_slug_char(#[trigger] s[i])
    &&& s[0] != '-'
    &&& s.last() != '-'
    &&& forall|i: int| 0 <= i < s.len() - 1 ==> !(#[trigger] s[i] == '-' && s[i + 1] == '-')
}

proof fn lemma_slug_scan_shape(s: Seq<char>)
    ensures
        ({
            let (acc, dash) = slug_scan(s);
            &&& forall|i: int| 0 <= i < acc.len() ==> is_slug_char(#[trigger] acc[i])
            &&& acc.len() > 0 ==> acc[0] != '-'
            &&& forall|i: int| 0 <= i < acc.len() - 1 ==> !(#[trigger] acc[i] == '-' && acc[i + 1] == '-')
            &&& dash == (acc.len() > 0 && acc.last() == '-')
        }),
    decreases s.len(),
{
    if s.len() > 0 {
        lemma_slug_scan_shape(s.drop_last());
        let (acc, dash) = slug_scan(s.drop_last());
        let c = s.last();
        if is_ascii_alnum(c) {
            let l = ascii_lower(c);
            assert(is_slug_char(l));
            let next = acc.push(l);
            assert forall|i: int| 0 <= i < next.len() implies is_slug_char(#[trigger] next[i]) by {
                if i < acc.len() {
                    assert(next[i] == acc[i]);
                }
            }
            assert forall|i: int| 0 <= i < next.len() - 1 implies !(#[trigger] next[i] == '-' && next[i + 1] == '-') by {
                if i + 1 < acc.len() {
                    assert(next[i] == acc[i] && next[i + 1] == acc[i + 1]);
                }
            }
        } else if !dash && acc.len() > 0 {
            let next = acc.push('-');
            assert forall|i: int| 0 <= i < next.len() implies is_slug_char(#[trigger] next[i]) by {
                if i < acc.len() {
                    assert(next[i] == acc[i]);
                }
            }
            assert forall|i: int| 0 <= i < next.len() - 1 implies !(#[trigger] next[i] == '-' && next[i + 1] == '-') by {
                if i + 1 < acc.len() {
                    assert(next[i] == acc[i] && next[i + 1] == acc[i + 1]);
                } else {
                    assert(next[i] == acc.last());
                }
            }
        }
    }
}

proof fn lemma_trim_trailing_prefix(s: Seq<char>)
    ensures
        trim_trailing_dashes(s).len() <= s.len(),
        trim_trailing_dashes(s) =~= s.take(trim_trailing_dashes(s).len() as int),
        trim_trailing_dashes(s).len() > 0 ==> trim_trailing_dashes(s).last() != '-',
    decreases s.len(),
{
    if s.len() > 0 && s.last() == '-' {
        lemma_trim_trailing_prefix(s.drop_last());
        let t = trim_trailing_dashes(s.drop_last());
        assert(s.drop_last().take(t.len() as int) =~= s.take(t.len() as int));
    } else {
        assert(s.take(s.len() as int) =~= s);
    }
}

/// Every slug has the slug shape: not empty, lowercase ASCII letters,
/// digits and single dashes, with no dash at either end.
pub proof fn lemma_slug_shape(s: Seq<char>)
    ensures
        is_slug(slug(s)),
{
    lemma_slug_scan_shape(s);
    let acc = slug_scan(s).0;
    lemma_trim_trailing_prefix(acc);
    let t = trim_trailing_dashes(acc);
    if t.len() > 0 {
        assert(t[0] == acc[0]);
        assert(trim_leading_dashes(t) == t);
        assert forall|i: int| 0 <= i < t.len() implies is_slug_char(#[trigger] t[i]) by {
            assert(t[i] == acc[i]);
        }
        assert forall|i: int| 0 <= i < t.len() - 1 implies !(#[trigger] t[i] == '-' && t[i + 1] == '-') by {
            assert(t[i] == acc[i] && t[i + 1] == acc[i + 1]);
        }
    } else {
        assert(trim_leading_dashes(t) == t);
        reveal_strlit("workspace");
        let w = DEFAULT_SLUG@;
        assert(w =~= seq!['w', 'o', 'r', 'k', 's', 'p', 'a', 'c', 'e']);
    }
}

proof fn lemma_slug_scan_of_slug(t: Seq<char>, i: int)
    requires
        is_slug(t),
        0 <= i <= t.len(),
    ensures
        slug_scan(t.take(i)) == (t.take(i), i > 0 && t[i - 1] == '-'),
    decreases i,
{
    if i == 0 {
        assert(t.take(0) =~= Seq::<char>::empty());
    } else {
        lemma_slug_scan_of_slug(t, i - 1);
        lemma_slug_scan_step(t, i - 1);
        let c = t[i - 1];
        assert(is_slug_char(c));
        if c == '-' {
            assert(i - 1 > 0);
            assert(!(t[i - 2] == '-' && t[i - 1] == '-'));
            assert(t.take(i - 1).len() > 0);
        }
        assert(t.take(i) =~= t.take(i - 1).push(c));
    }
}

/// Slugging is idempotent: the slug of a slug is that slug.
pub proof fn lemma_slug_idempotent(s: Seq<char>)
    ensures
        slug(slug(s)) == slug(s),
{
    lemma_slug_shape(s);
    let t = slug(s);
    lemma_slug_scan_of_slug(t, t.len() as int);
    assert(t.take(t.len() as int) =~= t);
    assert(t[t.len() - 1] == t.last());
    assert(trim_trailing_dashes(t) == t);
    assert(trim_leading_dashes(t) == t);
}

/// The maximal runs of ASCII letters and digits of `s`, lowercased, in
/// order.
pub open spec fn alnum_runs(s: Seq<char>) -> Seq<Seq<char>>
    decreases s.len(),
{
    if s.len() == 0 {
        Seq::empty()
    } else {
        let r = alnum_runs(s.drop_last());
        let c = s.last();
        if !is_ascii_alnum(c) {
            r
        } else if s.len() > 1 && is_ascii_alnum(s[s.len() - 2]) {
            r.drop_last().push(r.last().push(ascii_lower(c)))
        } else {
            r.push(seq![ascii_lower(c)])
        }
    }
}

/// The runs joined with one dash between each two.
pub open spec fn join_dash(runs: Seq<Seq<char>>) -> Seq<char>
    decreases runs.len(),
{
    if runs.len() == 0 {
        Seq::empty()
    } else if runs.len() == 1 {
        runs[0]
    } else {
        join_dash(runs.drop_last()) + seq!['-'] + runs.last()
    }
}

proof fn lemma_join_extend(runs: Seq<Seq<char>>, c: char)
    requires
        runs.len() > 0,
    ensures
        join_dash(runs.drop_last().push(runs.last().push(c))) == join_dash(runs).push(c),
{
    let next = runs.drop_last().push(runs.last().push(c));
    assert(next.drop_last() =~= runs.drop_last());
    if runs.len() > 1 {
        assert(join_dash(next) =~= join_dash(runs).push(c));
    }
}

proof fn lemma_join_append(runs: Seq<Seq<char>>, r: Seq<char>)
    ensures
        join_dash(runs.push(r)) == if runs.len() == 0 {
            r
        } else {
            join_dash(runs) + seq!['-'] + r
        },
{
    assert(runs.push(r).drop_last() =~= runs);
}

proof fn lemma_runs_shape(s: Seq<char>)
    ensures
        forall|k: int|
            0 <= k < alnum_runs(s).len() ==> (#[trigger] alnum_runs(s)[k]).len() > 0 && forall|j: int|
                0 <= j < alnum_runs(s)[k].len() ==> #[trigger] alnum_runs(s)[k][j] != '-',
        s.len() > 0 && is_ascii_alnum(s.last()) ==> alnum_runs(s).len() > 0,
    decreases s.len(),
{
    if s.len() > 0 {
        let init = s.drop_last();
        lemma_runs_shape(init);
        let r = alnum_runs(init);
        let c = s.last();
        let l = ascii_lower(c);
        if is_ascii_alnum(c) {
            assert(l != '-');
            if s.len() > 1 && is_ascii_alnum(s[s.len() - 2]) {
                assert(init.last() == s[s.len() - 2]);
                let x = r.last().push(l);
                let next = r.drop_last().push(x);
                assert forall|k: int| 0 <= k < next.len() implies (#[trigger] next[k]).len() > 0
                    && forall|j: int| 0 <= j < next[k].len() ==> #[trigger] next[k][j] != '-' by {
                    if k < r.len() - 1 {
                        assert(next[k] == r[k]);
                    } else {
                        assert(next[k] == x);
                        assert(r.last() == r[r.len() - 1]);
                        assert forall|j: int| 0 <= j < x.len() implies #[trigger] x[j] != '-' by {
                            if j < r.last().len() {
                                assert(x[j] == r[r.len() - 1][j]);
                            }
                        }
                    }
                }
            } else {
                let next = r.push(seq![l]);
                assert forall|k: int| 0 <= k < next.len() implies (#[trigger] next[k]).len() > 0
                    && forall|j: int| 0 <= j < next[k].len() ==> #[trigger] next[k][j] != '-' by {
                    if k < r.len() {
                        assert(next[k] == r[k]);
                    }
                }
            }
        }
    }
}

proof fn lemma_join_ends(runs: Seq<Seq<char>>)
    requires
        runs.len() > 0,
        forall|k: int|
            0 <= k < runs.len() ==> (#[trigger] runs[k]).len() > 0 && forall|j: int|
                0 <= j < runs[k].len() ==> #[trigger] runs[k][j] != '-',
    ensures
        join_dash(runs).len() > 0,
        join_dash(runs)[0] != '-',
        join_dash(runs).last() != '-',
    decreases runs.len(),
{
    assert(runs[0].len() > 0 && runs[0][0] != '-');
    let last = runs[runs.len() - 1];
    assert(last.len() > 0 && last[last.len() - 1] != '-');
    if runs.len() > 1 {
        let init = runs.drop_last();
        assert forall|k: int| 0 <= k < init.len() implies (#[trigger] init[k]).len() > 0 && forall|
            j: int,
        | 0 <= j < init[k].len() ==> #[trigger] init[k][j] != '-' by {
            assert(init[k] == runs[k]);
        }
        lemma_join_ends(init);
        let j = join_dash(runs);
        assert(j == join_dash(init) + seq!['-'] + last);
        assert(j[0] == join_dash(init)[0]);
        assert(j.last() == last.last());
    }
}

proof fn lemma_scan_runs(s: Seq<char>)
    ensures
        slug_scan(s).1 == (alnum_runs(s).len() > 0 && s.len() > 0 && !is_ascii_alnum(s.last())),
        slug_scan(s).0 == join_dash(alnum_runs(s)) + (if slug_scan(s).1 {
            seq!['-']
        } else {
            Seq::<char>::empty()
        }),
    decreases s.len(),
{
    if s.len() == 0 {
        assert(join_dash(alnum_runs(s)) + Seq::<char>::empty() =~= Seq::<char>::empty());
    } else {
        let init = s.drop_last();
        lemma_scan_runs(init);
        lemma_runs_shape(init);
        let (acc, dash) = slug_scan(init);
        let r = alnum_runs(init);
        let c = s.last();
        let l = ascii_lower(c);
        if is_ascii_alnum(c) {
            if s.len() > 1 && is_ascii_alnum(s[s.len() - 2]) {
                assert(init.last() == s[s.len() - 2]);
                assert(!dash);
                assert(acc =~= join_dash(r));
                lemma_join_extend(r, l);
                assert(join_dash(alnum_runs(s)) + Seq::<char>::empty() =~= acc.push(l));
            } else {
                lemma_join_append(r, seq![l]);
                if r.len() == 0 {
                    assert(!dash);
                    assert(acc =~= Seq::<char>::empty());
                    assert(join_dash(alnum_runs(s)) + Seq::<char>::empty() =~= acc.push(l));
                } else {
                    assert(init.len() > 0);
                    assert(!is_ascii_alnum(init.last()));
                    assert(dash);
                    assert(join_dash(alnum_runs(s)) + Seq::<char>::empty() =~= acc.push(l));
                }
            }
        } else {
            if !dash && acc.len() > 0 {
                assert(acc =~= join_dash(r));
                assert(r.len() > 0) by {
                    if r.len() == 0 {
                        assert(join_dash(r) =~= Seq::<char>::empty());
                    }
                }
            } else if r.len() > 0 && !dash {
                assert(acc =~= join_dash(r));
                lemma_join_ends(r);
            }
        }
    }
}

/// The slug of `s` is its maximal runs of ASCII letters and digits,
/// lowercased and joined with single dashes, or `workspace` when it has
/// none.
pub proof fn lemma_slug_is_joined_runs(s: Seq<char>)
    ensures
        slug(s) == if alnum_runs(s).len() == 0 {
            DEFAULT_SLUG@
        } else {
            join_dash(alnum_runs(s))
        },
{
    lemma_scan_runs(s);
    lemma_runs_shape(s);
    let runs = alnum_runs(s);
    let (acc, dash) = slug_scan(s);
    if runs.len() == 0 {
        assert(acc =~= Seq::<char>::empty());
    } else {
        lemma_join_ends(runs);
        let j = join_dash(runs);
        assert(trim_trailing_dashes(j) == j);
        if dash {
            assert(acc =~= j.push('-'));
            assert(acc.drop_last() =~= j);
        } else {
            assert(acc =~= j);
        }
        assert(trim_trailing_dashes(acc) == j);
        assert(trim_leading_dashes(j) == j);
    }
}

/// The directory, under the cache directory, that holds this tool's state.
pub const STATE_DIR: &'static str = "zwd";

/// The directory, under [`STATE_DIR`], that holds the docks.
pub const DOCKS_DIR: &'static str = "docks";

/// The stem that names a dock: the workspace file's stem, else `workspace`.
pub open spec fn dock_stem(workspace_path: Seq<char>) -> Seq<char> {
    match crate::paths::file_stem(workspace_path) {
        Some(s) => s,
        None => DEFAULT_SLUG@,
    }
}

/// The name of the dock of a workspace: the slug of its stem, a dash, and
/// the first twelve hex digits of the SHA-256 digest of its absolute path.
pub open spec fn dock_name(workspace_path: Seq<char>, workspace_abs: Seq<char>) -> Seq<char> {
    slug(dock_stem(workspace_path)) + seq!['-'] + crate::encoding::hex_lower(
        crate::encoding::sha256_digest(vstd::utf8::encode_utf8(workspace_abs)),
    ).take(12)
}

/// Where the dock of a workspace lives under the cache directory.
pub open spec fn dock_root(cache_dir: Seq<char>, workspace_path: Seq<char>, workspace_abs: Seq<char>) -> Seq<char> {
    join(join(join(cache_dir, STATE_DIR@), DOCKS_DIR@), dock_name(workspace_path, workspace_abs))
}

/// The name of the dock of the workspace at `workspace_path`, whose
/// absolute path is `workspace_abs`.
pub fn dock_name_of(workspace_path: &str, workspace_abs: &str) -> (r: String)
    ensures
        r@ == dock_name(workspace_path@, workspace_abs@),
{
    let stem = match crate::paths::file_stem_of(workspace_path) {
        Some(s) => s,
        None => String::from_str(DEFAULT_SLUG),
    };
    let mut name = slugify(stem.as_str());
    let digest = crate::encoding::sha256(workspace_abs.as_bytes());
    let hex = crate::encoding::hex_encode(digest.as_slice());
    let hex_chars = chars_of(hex.as_str());
    proof {
        crate::encoding::lemma_hex_lower_digits(digest@);
    }
    let short = crate::paths::sub_chars(&hex_chars, 0, 12);
    push_char(&mut name, '-');
    let tail = string_of(&short);
    name.append(tail.as_str());
    proof {
        assert(short@ =~= hex@.take(12));
        assert(name@ =~= dock_name(workspace_path@, workspace_abs@));
    }
    name
}

/// Where the dock of the workspace at `workspace_path` (absolute path
/// `workspace_abs`) lives under `cache_dir`.
pub fn dock_root_in(cache_dir: &str, workspace_path: &str, workspace_abs: &str) -> (r: String)
    ensures
        r@ == dock_root(cache_dir@, workspace_path@, workspace_abs@),
{
    let state = join_path(cache_dir, STATE_DIR);
    let docks = join_path(state.as_str(), DOCKS_DIR);
    let name = dock_name_of(workspace_path, workspace_abs);
    join_path(docks.as_str(), name.as_str())
}

/// The absolute form of a workspace path: `canonical` when the path exists
/// and was canonicalized, otherwise the path joined to `current_dir`.
pub fn absolute_workspace_path(path: &str, canonical: Option<String>, current_dir: &str) -> (r: String)
    ensures
        match canonical {
            Some(c) => r@ == c@,
            None => r@ == join(current_dir@, path@),
        },
{
    match canonical {
        Some(c) => c,
        None => join_path(current_dir, path),
    }
}

/// A link recorded in a dock lock.
#[derive(Debug)]
pub struct DockLink {
    pub name: String,
    pub target: String,
}

impl View for DockLink {
    type V = (Seq<char>, Seq<char>);

    open spec fn view(&self) -> (Seq<char>, Seq<char>) {
        (self.name@, self.target@)
    }
}

/// The lock of a dock: its format version, the workspace that owns the
/// dock, and the links it manages.
#[derive(Debug)]
pub struct DockLock {
    pub version: u8,
    pub workspace_path: String,
    pub links: Vec<DockLink>,
}

/// The views of a list of links.
pub open spec fn link_views(links: Seq<DockLink>) -> Seq<(Seq<char>, Seq<char>)> {
    links.map_values(|l: DockLink| l@)
}

/// The names of a list of links.
pub open spec fn link_names(links: Seq<(Seq<char>, Seq<char>)>) -> Seq<Seq<char>> {
    links.map_values(|l: (Seq<char>, Seq<char>)| l.0)
}

impl View for DockLock {
    type V = (u8, Seq<char>, Seq<(Seq<char>, Seq<char>)>);

    open spec fn view(&self) -> (u8, Seq<char>, Seq<(Seq<char>, Seq<char>)>) {
        (self.version, self.workspace_path@, link_views(self.links@))
    }
}

/// An entry found in a dock directory: its name and whether it is a symlink.
#[derive(Debug)]
pub struct DockEntry {
    pub name: String,
    pub is_symlink: bool,
}

impl View for DockEntry {
    type V = (Seq<char>, bool);

    open spec fn view(&self) -> (Seq<char>, bool) {
        (self.name@, self.is_symlink)
    }
}

/// The views of a list of dock entries.
pub open spec fn entry_views(entries: Seq<DockEntry>) -> Seq<(Seq<char>, bool)> {
    entries.map_values(|e: DockEntry| e@)
}

/// Checks that the dock path is a directory.
pub fn ensure_dock_directory(dock_root: &str, is_dir: bool) -> (r: Result<(), AppError>)
    ensures
        is_dir ==> r is Ok,
        !is_dir ==> (r matches Err(AppError::DockPathNotDirectory { path }) && path@ == dock_root@),
{
    if !is_dir {
        return Err(AppError::DockPathNotDirectory { path: dock_root.to_owned() });
    }
    Ok(())
}

/// The lock of the dock at `dock_root`, given the parsed lock file (`None`
/// when there is no lock file): refused when missing or of another version.
pub fn lock_from_document(dock_root: &str, document: Option<DockLock>) -> (r: Result<DockLock, AppError>)
    ensures
        match document {
            None => r matches Err(AppError::DockMissingLock { path }) && path@ == dock_root@,
            Some(lock) => if lock.version == LOCK_VERSION {
                r == Ok::<DockLock, AppError>(lock)
            } else {
                r matches Err(AppError::UnsupportedDockLockVersion { version }) && version
                    == lock.version
            },
        },
{
    match document {
        None => Err(AppError::DockMissingLock { path: dock_root.to_owned() }),
        Some(lock) => {
            if lock.version != LOCK_VERSION {
                return Err(AppError::UnsupportedDockLockVersion { version: lock.version });
            }
            Ok(lock)
        },
    }
}

/// What is wrong with a dock entry.
#[derive(Clone, Copy, Debug, PartialEq, Eq, Structural)]
pub enum EntryFault {
    Unmanaged,
    NotSymlink,
}

/// What is wrong with the entry `e` of a dock whose lock names the links
/// `names`: nothing for the lock file and for symlinks the lock names.
pub open spec fn entry_fault(e: (Seq<char>, bool), names: Seq<Seq<char>>) -> Option<EntryFault> {
    if e.0 == LOCK_FILE@ {
        None
    } else if !names.contains(e.0) {
        Some(EntryFault::Unmanaged)
    } else if !e.1 {
        Some(EntryFault::NotSymlink)
    } else {
        None
    }
}

/// The index of the first faulty entry among the first `n`.
pub open spec fn first_entry_fault(entries: Seq<(Seq<char>, bool)>, names: Seq<Seq<char>>, n: nat) -> Option<int>
    decreases n,
{
    if n == 0 {
        None
    } else {
        match first_entry_fault(entries, names, (n - 1) as nat) {
            Some(i) => Some(i),
            None => if entry_fault(entries[n - 1], names) is Some {
                Some(n - 1)
            } else {
                None
            },
        }
    }
}

proof fn lemma_first_entry_fault_stays(entries: Seq<(Seq<char>, bool)>, names: Seq<Seq<char>>, i: nat, n: nat)
    requires
        i < n,
        first_entry_fault(entries, names, i) is None,
        entry_fault(entries[i as int], names) is Some,
    ensures
        first_entry_fault(entries, names, n) == Some(i as int),
    decreases n - i,
{
    if n > i + 1 {
        lemma_first_entry_fault_stays(entries, names, i, (n - 1) as nat);
    }
}

fn links_contain(links: &Vec<DockLink>, name: &String) -> (r: bool)
    ensures
        r == link_names(link_views(links@)).contains(name@),
{
    let ghost names = link_names(link_views(links@));
    let mut i: usize = 0;
    while i < links.len()
        invariant
            names == link_names(link_views(links@)),
            names.len() == links@.len(),
            i <= links@.len(),
            forall|j: int| 0 <= j < i ==> names[j] != name@,
        decreases links.len() - i,
    {
        proof {
            assert(names[i as int] == links@[i as int].name@);
        }
        if links[i].name == *name {
            proof {
                assert(names[i as int] == name@);
            }
            return true;
        }
        i = i + 1;
    }
    proof {
        if names.contains(name@) {
            let j = choose|j: int| 0 <= j < names.len() && #[trigger] names[j] == name@;
            assert(names[j] != name@);
        }
    }
    false
}

fn is_lock_file(name: &String) -> (r: bool)
    ensures
        r == (name@ == LOCK_FILE@),
{
    let lock = String::from_str(LOCK_FILE);
    *name == lock
}

/// Checks that the dock at `dock_root`, with lock `lock` and entries
/// `entries` (in directory order), is owned by the workspace at
/// `workspace_path`: the lock names that workspace, and every entry but the
/// lock file is a symlink that the lock lists. Hands the lock back.
pub fn validate_owned_dock(dock_root: &str, workspace_path: &str, lock: DockLock, entries: &Vec<DockEntry>) -> (r: Result<
    DockLock,
    AppError,
>)
    ensures
        !same_path(lock.workspace_path@, workspace_path@) ==> (r matches Err(
            AppError::DockWorkspacePathMismatch { lock_workspace_path: l, workspace_path: w },
        ) && l@ == lock.workspace_path@ && w@ == workspace_path@),
        same_path(lock.workspace_path@, workspace_path@) ==> match first_entry_fault(
            entry_views(entries@),
            link_names(link_views(lock.links@)),
            entries@.len(),
        ) {
            None => r == Ok::<DockLock, AppError>(lock),
            Some(i) => match entry_fault(entries@[i]@, link_names(link_views(lock.links@))) {
                Some(EntryFault::Unmanaged) => r matches Err(AppError::UnmanagedDockContent { path })
                    && path@ == join(dock_root@, entries@[i].name@),
                Some(EntryFault::NotSymlink) => r matches Err(
                    AppError::ManagedDockEntryNotSymlink { path },
                ) && path@ == join(dock_root@, entries@[i].name@),
                None => false,
            },
        },
{
    if !crate::paths::paths_equal(lock.workspace_path.as_str(), workspace_path) {
        return Err(
            AppError::DockWorkspacePathMismatch {
                lock_workspace_path: lock.workspace_path,
                workspace_path: workspace_path.to_owned(),
            },
        );
    }
    let ghost names = link_names(link_views(lock.links@));
    let ghost ev = entry_views(entries@);
    let mut i: usize = 0;
    while i < entries.len()
        invariant
            same_path(lock.workspace_path@, workspace_path@),
            names == link_names(link_views(lock.links@)),
            ev == entry_views(entries@),
            i <= entries@.len(),
            first_entry_fault(ev, names, i as nat) is None,
        decreases entries.len() - i,
    {
        let entry = &entries[i];
        proof {
            assert(ev[i as int] == entry@);
        }
        if !is_lock_file(&entry.name) {
            if !links_contain(&lock.links, &entry.name) {
                proof {
                    lemma_first_entry_fault_stays(ev, names, i as nat, entries@.len());
                }
                return Err(
                    AppError::UnmanagedDockContent {
                        path: join_path(dock_root, entry.name.as_str()),
                    },
                );
            }
            if !entry.is_symlink {
                proof {
                    lemma_first_entry_fault_stays(ev, names, i as nat, entries@.len());
                }
                return Err(
                    AppError::ManagedDockEntryNotSymlink {
                        path: join_path(dock_root, entry.name.as_str()),
                    },
                );
            }
        }
        i = i + 1;
    }
    Ok(lock)
}

/// The entries to remove before a dock is rebuilt: those the lock lists,
/// never the lock file itself, in entry order.
pub open spec fn locked_removals(entries: Seq<Seq<char>>, names: Seq<Seq<char>>) -> Seq<Seq<char>>
    decreases entries.len(),
{
    if entries.len() == 0 {
        Seq::empty()
    } else {
        let rest = locked_removals(entries.drop_last(), names);
        let e = entries.last();
        if e != LOCK_FILE@ && names.contains(e) {
            rest.push(e)
        } else {
            rest
        }
    }
}

/// The names of the dock entries (given by name, in directory order) that
/// a rebuild removes: those the lock lists, but never the lock file.
pub fn locked_links_to_remove(lock: &DockLock, entries: &Vec<String>) -> (r: Vec<String>)
    ensures
        r@.map_values(|s: String| s@) == locked_removals(
            entries@.map_values(|s: String| s@),
            link_names(link_views(lock.links@)),
        ),
        forall|x: Seq<char>|
            #[trigger] crate::edit::texts(r@).contains(x) <==> crate::edit::texts(entries@).contains(x)
                && link_names(link_views(lock.links@)).contains(x) && x != LOCK_FILE@,
{
    let ghost ev = entries@.map_values(|s: String| s@);
    let ghost names = link_names(link_views(lock.links@));
    let mut out: Vec<String> = Vec::new();
    let mut i: usize = 0;
    proof {
        assert(ev.take(0) =~= Seq::<Seq<char>>::empty());
        assert(out@.map_values(|s: String| s@) =~= Seq::<Seq<char>>::empty());
    }
    while i < entries.len()
        invariant
            ev == entries@.map_values(|s: String| s@),
            names == link_names(link_views(lock.links@)),
            i <= entries@.len(),
            out@.map_values(|s: String| s@) == locked_removals(ev.take(i as int), names),
        decreases entries.len() - i,
    {
        let name = &entries[i];
        proof {
            assert(ev.take(i + 1).drop_last() =~= ev.take(i as int));
            assert(ev.take(i + 1).last() == name@);
        }
        if !is_lock_file(name) && links_contain(&lock.links, name) {
            let ghost before = out@;
            out.push(name.clone());
            proof {
                assert(out@.map_values(|s: String| s@) =~= before.map_values(|s: String| s@).push(
                    name@,
                ));
            }
        }
        i = i + 1;
    }
    proof {
        assert(ev.take(entries@.len() as int) =~= ev);
        lemma_rebuild_removes_only_locked_links(ev, link_views(lock.links@));
        assert(crate::edit::texts(out@) =~= out@.map_values(|s: String| s@));
        assert(crate::edit::texts(entries@) =~= ev);
    }
    out
}

/// The lock written for a dock of the workspace at `workspace_path` that
/// links `folders`.
pub open spec fn lock_view(workspace_path: Seq<char>, folders: Seq<(Seq<char>, Seq<char>)>) -> (u8, Seq<char>, Seq<(Seq<char>, Seq<char>)>) {
    (LOCK_VERSION, workspace_path, folders)
}

/// The lock for a dock of the workspace at `workspace_path` that links
/// `folders`. Every name it records passes the link name rules.
pub fn lock_for(workspace_path: &str, folders: &Vec<ResolvedFolder>) -> (r: DockLock)
    ensures
        r@ == lock_view(workspace_path@, resolved_views(folders@)),
        forall|i: int| 0 <= i < r.links@.len() ==> link_name_issue(#[trigger] r.links@[i].name@) is None,
{
    let mut links: Vec<DockLink> = Vec::new();
    let mut i: usize = 0;
    while i < folders.len()
        invariant
            i <= folders@.len(),
            links@.len() == i,
            forall|k: int| 0 <= k < links@.len() ==> link_name_issue(#[trigger] links@[k].name@) is None,
            link_views(links@) == resolved_views(folders@).take(i as int),
        decreases folders.len() - i,
    {
        let f = &folders[i];
        let ghost before = links@;
        let name = f.name.as_str();
        links.push(DockLink { name: name.to_owned(), target: f.target.clone() });
        proof {
            assert(link_views(links@) =~= link_views(before).push(f@));
            assert(resolved_views(folders@).take(i + 1) =~= resolved_views(folders@).take(
                i as int,
            ).push(f@));
        }
        i = i + 1;
    }
    proof {
        assert(resolved_views(folders@).take(folders@.len() as int) =~= resolved_views(folders@));
    }
    DockLock { version: LOCK_VERSION, workspace_path: workspace_path.to_owned(), links }
}

/// Reading back the folders a lock records: the folders, or the index of
/// the first link whose name is not a valid link name and why.
pub open spec fn folders_from_links(links: Seq<(Seq<char>, Seq<char>)>) -> Result<Seq<(Seq<char>, Seq<char>)>, (int, NameIssue)>
    decreases links.len(),
{
    if links.len() == 0 {
        Ok(Seq::empty())
    } else {
        match folders_from_links(links.drop_last()) {
            Err(e) => Err(e),
            Ok(done) => match link_name_issue(links.last().0) {
                Some(issue) => Err((links.len() - 1, issue)),
                None => Ok(done.push(links.last())),
            },
        }
    }
}

proof fn lemma_folders_from_links_err(links: Seq<(Seq<char>, Seq<char>)>, i: nat, n: nat)
    requires
        i < n <= links.len(),
        folders_from_links(links.take(i as int)) is Ok,
        link_name_issue(links[i as int].0) is Some,
    ensures
        folders_from_links(links.take(n as int)) == Err::<Seq<(Seq<char>, Seq<char>)>, (int, NameIssue)>(
            (i as int, link_name_issue(links[i as int].0)->Some_0),
        ),
    decreases n - i,
{
    if n > i + 1 {
        lemma_folders_from_links_err(links, i, (n - 1) as nat);
        assert(links.take(n as int).drop_last() =~= links.take(n - 1));
    } else {
        assert(links.take(n as int).drop_last() =~= links.take(i as int));
    }
}

/// The folders a lock records, each name checked again as a link name.
pub fn resolved_folders_from_lock(lock: &DockLock) -> (r: Result<Vec<ResolvedFolder>, AppError>)
    ensures
        match folders_from_links(link_views(lock.links@)) {
            Ok(folders) => r matches Ok(v) && resolved_views(v@) == folders,
            Err((i, issue)) => r matches Err(AppError::InvalidLinkName { name, reason }) && name@
                == lock.links@[i].name@ && reason == issue,
        },
{
    let ghost lv = link_views(lock.links@);
    let mut out: Vec<ResolvedFolder> = Vec::new();
    let mut i: usize = 0;
    proof {
        assert(lv.take(0) =~= Seq::<(Seq<char>, Seq<char>)>::empty());
        assert(resolved_views(out@) =~= Seq::<(Seq<char>, Seq<char>)>::empty());
    }
    while i < lock.links.len()
        invariant
            lv == link_views(lock.links@),
            i <= lv.len(),
            folders_from_links(lv.take(i as int)) == Ok::<
                Seq<(Seq<char>, Seq<char>)>,
                (int, NameIssue),
            >(resolved_views(out@)),
        decreases lock.links.len() - i,
    {
        let link = &lock.links[i];
        proof {
            assert(lv.take(i + 1).drop_last() =~= lv.take(i as int));
            assert(lv.take(i + 1).last() == link@);
        }
        match LinkName::new(link.name.clone()) {
            Ok(name) => {
                let ghost before = out@;
                out.push(ResolvedFolder { name, target: link.target.clone() });
                proof {
                    assert(resolved_views(out@) =~= resolved_views(before).push(link@));
                }
            },
            Err(e) => {
                proof {
                    lemma_folders_from_links_err(lv, i as nat, lv.len());
                    assert(lv.take(lv.len() as int) =~= lv);
                }
                return Err(e);
            },
        }
        i = i + 1;
    }
    proof {
        assert(lv.take(lv.len() as int) =~= lv);
    }
    Ok(out)
}

/// Where an existing dock link points, or why it could not be read.
#[derive(Debug)]
pub enum LinkTarget {
    Points(String),
    Unreadable(std::io::Error),
}

/// An entry of a dock being reconciled: its name and where it points.
#[derive(Debug)]
pub struct LinkEntry {
    pub name: String,
    pub target: LinkTarget,
}

/// What reconciling a dock does: the entries to remove (by name, in entry
/// order), then the folders to link (by index, in folder order); or, when a
/// link that must be compared cannot be read, the entries to remove before
/// it and the error to stop with.
#[derive(Debug)]
pub struct ReconcilePlan {
    pub remove: Vec<String>,
    pub create: Vec<usize>,
    pub fault: Option<AppError>,
}

/// The index of the first folder named `name` at or after `i`, or -1.
pub open spec fn find_folder_from(folders: Seq<(Seq<char>, Seq<char>)>, name: Seq<char>, i: int) -> int
    decreases folders.len() - i,
{
    if i < 0 || i >= folders.len() {
        -1
    } else if folders[i].0 == name {
        i
    } else {
        find_folder_from(folders, name, i + 1)
    }
}

/// The index of the first folder named `name`, or -1.
pub open spec fn find_folder(folders: Seq<(Seq<char>, Seq<char>)>, name: Seq<char>) -> int {
    find_folder_from(folders, name, 0)
}

/// Reconciling removes `e`: it is not the lock file, and no folder has its
/// name or the first folder with its name has another target.
pub open spec fn entry_removed(e: LinkEntry, folders: Seq<(Seq<char>, Seq<char>)>) -> bool {
    let k = find_folder(folders, e.name@);
    e.name@ != LOCK_FILE@ && (k == -1 || (e.target matches LinkTarget::Points(t) && !same_path(
        t@,
        folders[k].1,
    )))
}

/// Reconciling needs the target of `e` and cannot read it.
pub open spec fn entry_unreadable(e: LinkEntry, folders: Seq<(Seq<char>, Seq<char>)>) -> bool {
    e.name@ != LOCK_FILE@ && find_folder(folders, e.name@) != -1 && e.target is Unreadable
}

/// The names of the entries that reconciling removes, in entry order.
pub open spec fn plan_removals(entries: Seq<LinkEntry>, folders: Seq<(Seq<char>, Seq<char>)>) -> Seq<Seq<char>>
    decreases entries.len(),
{
    if entries.len() == 0 {
        Seq::empty()
    } else {
        let rest = plan_removals(entries.drop_last(), folders);
        if entry_removed(entries.last(), folders) {
            rest.push(entries.last().name@)
        } else {
            rest
        }
    }
}

/// The names of the entries that stay, in entry order.
pub open spec fn plan_kept(entries: Seq<LinkEntry>, folders: Seq<(Seq<char>, Seq<char>)>) -> Seq<Seq<char>>
    decreases entries.len(),
{
    if entries.len() == 0 {
        Seq::empty()
    } else {
        let rest = plan_kept(entries.drop_last(), folders);
        if entry_removed(entries.last(), folders) {
            rest
        } else {
            rest.push(entries.last().name@)
        }
    }
}

/// Reconciling links folder `i`: no entry with its name stays, and no
/// earlier folder has the same name.
pub open spec fn folder_created(folders: Seq<(Seq<char>, Seq<char>)>, kept: Seq<Seq<char>>, i: int) -> bool {
    !kept.contains(folders[i].0) && forall|j: int| 0 <= j < i ==> #[trigger] folders[j].0 != folders[i].0
}

/// The indices of the folders among the first `n` that reconciling links.
pub open spec fn plan_creations(folders: Seq<(Seq<char>, Seq<char>)>, kept: Seq<Seq<char>>, n: nat) -> Seq<int>
    decreases n,
{
    if n == 0 {
        Seq::empty()
    } else {
        let rest = plan_creations(folders, kept, (n - 1) as nat);
        if folder_created(folders, kept, n - 1) {
            rest.push(n - 1)
        } else {
            rest
        }
    }
}

/// The index of the first entry among the first `n` whose target is needed
/// and unreadable.
pub open spec fn first_unreadable(entries: Seq<LinkEntry>, folders: Seq<(Seq<char>, Seq<char>)>, n: nat) -> Option<int>
    decreases n,
{
    if n == 0 {
        None
    } else {
        match first_unreadable(entries, folders, (n - 1) as nat) {
            Some(i) => Some(i),
            None => if entry_unreadable(entries[n - 1], folders) {
                Some(n - 1)
            } else {
                None
            },
        }
    }
}

fn find_folder_index(folders: &Vec<ResolvedFolder>, name: &String) -> (r: Option<usize>)
    ensures
        match r {
            Some(k) => find_folder(resolved_views(folders@), name@) == k as int && k < folders@.len(),
            None => find_folder(resolved_views(folders@), name@) == -1,
        },
{
    let ghost fv = resolved_views(folders@);
    let mut i: usize = 0;
    while i < folders.len()
        invariant
            fv == resolved_views(folders@),
            i <= fv.len(),
            find_folder(fv, name@) == find_folder_from(fv, name@, i as int),
        decreases folders.len() - i,
    {
        let candidate = folders[i].name.as_str().to_owned();
        proof {
            assert(fv[i as int].0 == candidate@);
        }
        if candidate == *name {
            return Some(i);
        }
        i = i + 1;
    }
    None
}

fn strings_contain(v: &Vec<String>, s: &String) -> (r: bool)
    ensures
        r == v@.map_values(|x: String| x@).contains(s@),
{
    let ghost vv = v@.map_values(|x: String| x@);
    let mut i: usize = 0;
    while i < v.len()
        invariant
            vv == v@.map_values(|x: String| x@),
            i <= v@.len(),
            forall|j: int| 0 <= j < i ==> vv[j] != s@,
        decreases v.len() - i,
    {
        if v[i] == *s {
            proof {
                assert(vv[i as int] == s@);
            }
            return true;
        }
        i = i + 1;
    }
    proof {
        if vv.contains(s@) {
            let j = choose|j: int| 0 <= j < vv.len() && #[trigger] vv[j] == s@;
            assert(vv[j] != s@);
        }
    }
    false
}

/// The plan that brings the dock whose entries are `entries` (in directory
/// order, with where each points) in line with `folders`: remove entries
/// that no folder wants or that point elsewhere, keep the lock file and
/// the links that already match, then link every folder whose name is free.
pub fn reconcile_plan(folders: &Vec<ResolvedFolder>, entries: Vec<LinkEntry>) -> (p: ReconcilePlan)
    ensures
        match first_unreadable(entries@, resolved_views(folders@), entries@.len()) {
            Some(i) => p.remove@.map_values(|s: String| s@) == plan_removals(
                entries@.take(i),
                resolved_views(folders@),
            ) && p.create@.len() == 0 && (p.fault matches Some(AppError::Io(e))
                && entries@[i].target matches LinkTarget::Unreadable(s) && e == s),
            None => p.fault is None && p.remove@.map_values(|s: String| s@) == plan_removals(
                entries@,
                resolved_views(folders@),
            ) && p.create@.map_values(|k: usize| k as int) == plan_creations(
                resolved_views(folders@),
                plan_kept(entries@, resolved_views(folders@)),
                folders@.len(),
            ),
        },
{
    let ghost fv = resolved_views(folders@);
    let ghost all = entries@;
    let mut rest = entries;
    let mut remove: Vec<String> = Vec::new();
    let mut kept: Vec<String> = Vec::new();
    let mut i: usize = 0;
    let n = rest.len();
    proof {
        assert(all.skip(0) =~= all);
        assert(all.take(0) =~= Seq::<LinkEntry>::empty());
        assert(remove@.map_values(|s: String| s@) =~= Seq::<Seq<char>>::empty());
        assert(kept@.map_values(|s: String| s@) =~= Seq::<Seq<char>>::empty());
    }
    while i < n
        invariant
            all == entries@,
            fv == resolved_views(folders@),
            n == all.len(),
            i <= n,
            rest@ == all.skip(i as int),
            first_unreadable(all, fv, i as nat) is None,
            remove@.map_values(|s: String| s@) == plan_removals(all.take(i as int), fv),
            kept@.map_values(|s: String| s@) == plan_kept(all.take(i as int), fv),
        decreases n - i,
    {
        let entry = rest.remove(0);
        proof {
            assert(entry == all[i as int]);
            assert(rest@ =~= all.skip(i + 1));
            assert(all.take(i + 1).drop_last() =~= all.take(i as int));
            assert(all.take(i + 1).last() == entry);
        }
        let LinkEntry { name, target } = entry;
        let ghost before_remove = remove@;
        let ghost before_kept = kept@;
        if is_lock_file(&name) {
            kept.push(name);
        } else {
            match find_folder_index(folders, &name) {
                None => {
                    remove.push(name);
                },
                Some(k) => match target {
                    LinkTarget::Unreadable(e) => {
                        proof {
                            assert(entry_unreadable(all[i as int], fv));
                            lemma_first_unreadable_stays(all, fv, i as nat, n as nat);
                        }
                        return ReconcilePlan { remove, create: Vec::new(), fault: Some(AppError::Io(e)) };
                    },
                    LinkTarget::Points(t) => {
                        proof {
                            assert(fv[k as int].1 == folders@[k as int].target@);
                        }
                        if !crate::paths::paths_equal(t.as_str(), folders[k].target.as_str()) {
                            remove.push(name);
                        } else {
                            kept.push(name);
                        }
                    },
                },
            }
        }
        proof {
            assert(remove@.map_values(|s: String| s@) =~= plan_removals(all.take(i + 1), fv));
            assert(kept@.map_values(|s: String| s@) =~= plan_kept(all.take(i + 1), fv));
        }
        i = i + 1;
    }
    proof {
        assert(all.take(n as int) =~= all);
    }
    let ghost kv = kept@.map_values(|s: String| s@);
    let mut create: Vec<usize> = Vec::new();
    let mut c: usize = 0;
    proof {
        assert(create@.map_values(|k: usize| k as int) =~= Seq::<int>::empty());
    }
    while c < folders.len()
        invariant
            fv == resolved_views(folders@),
            kv == kept@.map_values(|s: String| s@),
            c <= folders@.len(),
            create@.map_values(|k: usize| k as int) == plan_creations(fv, kv, c as nat),
        decreases folders.len() - c,
    {
        let name = folders[c].name.as_str().to_owned();
        proof {
            assert(fv[c as int].0 == name@);
        }
        let mut fresh = !strings_contain(&kept, &name);
        let mut j: usize = 0;
        while j < c
            invariant
                fv == resolved_views(folders@),
                c < folders@.len(),
                j <= c,
                fv[c as int].0 == name@,
                fresh == (!kv.contains(name@) && forall|m: int| 0 <= m < j ==> #[trigger] fv[m].0 != name@),
                kv == kept@.map_values(|s: String| s@),
            decreases c - j,
        {
            let other = folders[j].name.as_str().to_owned();
            proof {
                assert(fv[j as int].0 == other@);
            }
            if other == name {
                fresh = false;
            }
            j = j + 1;
        }
        if fresh {
            let ghost before = create@;
            create.push(c);
            proof {
                assert(create@.map_values(|k: usize| k as int) =~= before.map_values(|k: usize| k as int).push(c as int));
            }
        }
        c = c + 1;
    }
    ReconcilePlan { remove, create, fault: None }
}

proof fn lemma_first_unreadable_stays(entries: Seq<LinkEntry>, folders: Seq<(Seq<char>, Seq<char>)>, i: nat, n: nat)
    requires
        i < n,
        first_unreadable(entries, folders, i) is None,
        entry_unreadable(entries[i as int], folders),
    ensures
        first_unreadable(entries, folders, n) == Some(i as int),
    decreases n - i,
{
    if n > i + 1 {
        lemma_first_unreadable_stays(entries, folders, i, (n - 1) as nat);
    }
}

proof fn lemma_find_folder_from(folders: Seq<(Seq<char>, Seq<char>)>, name: Seq<char>, i: int)
    requires
        0 <= i,
    ensures
        find_folder_from(folders, name, i) == -1 ==> forall|j: int|
            i <= j < folders.len() ==> #[trigger] folders[j].0 != name,
        find_folder_from(folders, name, i) != -1 ==> ({
            let k = find_folder_from(folders, name, i);
            i <= k < folders.len() && folders[k].0 == name && forall|j: int|
                i <= j < k ==> #[trigger] folders[j].0 != name
        }),
    decreases folders.len() - i,
{
    if i < folders.len() && folders[i].0 != name {
        lemma_find_folder_from(folders, name, i + 1);
    }
}

/// What `find_folder` finds.
pub proof fn lemma_find_folder(folders: Seq<(Seq<char>, Seq<char>)>, name: Seq<char>)
    ensures
        find_folder(folders, name) == -1 ==> forall|j: int|
            0 <= j < folders.len() ==> #[trigger] folders[j].0 != name,
        find_folder(folders, name) != -1 ==> ({
            let k = find_folder(folders, name);
            0 <= k < folders.len() && folders[k].0 == name && forall|j: int|
                0 <= j < k ==> #[trigger] folders[j].0 != name
        }),
{
    lemma_find_folder_from(folders, name, 0);
}

proof fn lemma_plan_kept_contains(entries: Seq<LinkEntry>, folders: Seq<(Seq<char>, Seq<char>)>, name: Seq<char>)
    ensures
        plan_kept(entries, folders).contains(name) <==> exists|k: int|
            0 <= k < entries.len() && #[trigger] entries[k].name@ == name && !entry_removed(
                entries[k],
                folders,
            ),
    decreases entries.len(),
{
    if entries.len() > 0 {
        let init = entries.drop_last();
        lemma_plan_kept_contains(init, folders, name);
        let rest = plan_kept(init, folders);
        if plan_kept(entries, folders).contains(name) {
            if rest.contains(name) {
                let k = choose|k: int|
                    0 <= k < init.len() && #[trigger] init[k].name@ == name && !entry_removed(
                        init[k],
                        folders,
                    );
                assert(entries[k] == init[k]);
            } else {
                let j = choose|j: int|
                    0 <= j < plan_kept(entries, folders).len() && plan_kept(entries, folders)[j]
                        == name;
                if !entry_removed(entries.last(), folders) {
                    if j < rest.len() {
                        assert(rest[j] == name);
                    }
                    assert(entries[entries.len() - 1].name@ == name);
                } else {
                    assert(rest[j] == name);
                }
            }
        } else {
            assert forall|k: int|
                0 <= k < entries.len() && #[trigger] entries[k].name@ == name implies entry_removed(
                entries[k],
                folders,
            ) by {
                if k < init.len() {
                    assert(entries[k] == init[k]);
                    if !entry_removed(init[k], folders) {
                        assert(rest.contains(name));
                        let j = choose|j: int| 0 <= j < rest.len() && rest[j] == name;
                        if !entry_removed(entries.last(), folders) {
                            assert(plan_kept(entries, folders)[j] == name);
                        } else {
                            assert(plan_kept(entries, folders)[j] == name);
                        }
                    }
                } else {
                    if !entry_removed(entries.last(), folders) {
                        assert(plan_kept(entries, folders).last() == name);
                    }
                }
            }
        }
    }
}

proof fn lemma_plan_creations_contains(folders: Seq<(Seq<char>, Seq<char>)>, kept: Seq<Seq<char>>, n: nat, i: int)
    requires
        n <= folders.len(),
    ensures
        plan_creations(folders, kept, n).contains(i) <==> (0 <= i < n && folder_created(
            folders,
            kept,
            i,
        )),
    decreases n,
{
    if n > 0 {
        lemma_plan_creations_contains(folders, kept, (n - 1) as nat, i);
        let rest = plan_creations(folders, kept, (n - 1) as nat);
        let all = plan_creations(folders, kept, n);
        if all.contains(i) {
            let j = choose|j: int| 0 <= j < all.len() && all[j] == i;
            if j < rest.len() {
                assert(rest[j] == i);
            }
        }
        if 0 <= i < n && folder_created(folders, kept, i) {
            if i < n - 1 {
                let j = choose|j: int| 0 <= j < rest.len() && rest[j] == i;
                assert(all[j] == i);
            } else {
                assert(all.last() == i);
            }
        }
    }
}

/// Reconciling converges: when the folders have distinct, valid link names
/// and every target the plan needs could be read, then after the plan every folder is linked
/// exactly once to its target (an entry that already pointed there stays,
/// otherwise the folder is linked anew), and every entry that stays is the
/// lock file or a link that some folder wants, pointing at that folder's
/// target.
pub proof fn lemma_reconcile_converges(entries: Seq<LinkEntry>, folders: Seq<(Seq<char>, Seq<char>)>)
    requires
        first_unreadable(entries, folders, entries.len()) is None,
        forall|a: int, b: int|
            0 <= a < b < folders.len() ==> #[trigger] folders[a].0 != #[trigger] folders[b].0,
        forall|a: int| 0 <= a < folders.len() ==> link_name_issue(#[trigger] folders[a].0) is None,
    ensures
        ({
            let kept = plan_kept(entries, folders);
            let created = plan_creations(folders, kept, folders.len());
            &&& forall|i: int|
                0 <= i < folders.len() ==> (created.contains(i) <==> !kept.contains(
                    #[trigger] folders[i].0,
                ))
            &&& forall|i: int|
                0 <= i < folders.len() && !created.contains(i) ==> exists|k: int|
                    0 <= k < entries.len() && #[trigger] entries[k].name@ == folders[i].0
                        && !entry_removed(entries[k], folders) && (entries[k].target matches LinkTarget::Points(t)
                        && same_path(t@, folders[i].1))
            &&& forall|k: int|
                0 <= k < entries.len() && !entry_removed(#[trigger] entries[k], folders)
                    && entries[k].name@ != LOCK_FILE@ ==> exists|i: int|
                    0 <= i < folders.len() && #[trigger] folders[i].0 == entries[k].name@
                        && (entries[k].target matches LinkTarget::Points(t) && same_path(t@, folders[i].1))
        }),
{
    lemma_lock_file_is_reserved();
    assert forall|a: int| 0 <= a < folders.len() implies #[trigger] folders[a].0 != LOCK_FILE@ by {
        assert(link_name_issue(folders[a].0) is None);
    }
    let kept = plan_kept(entries, folders);
    let created = plan_creations(folders, kept, folders.len());
    assert forall|i: int| 0 <= i < folders.len() implies (created.contains(i) <==> !kept.contains(
        #[trigger] folders[i].0,
    )) by {
        lemma_plan_creations_contains(folders, kept, folders.len(), i);
    }
    assert forall|k: int|
        0 <= k < entries.len() && !entry_removed(#[trigger] entries[k], folders)
            && entries[k].name@ != LOCK_FILE@ implies exists|i: int|
        0 <= i < folders.len() && #[trigger] folders[i].0 == entries[k].name@
            && (entries[k].target matches LinkTarget::Points(t) && same_path(t@, folders[i].1)) by {
        lemma_find_folder(folders, entries[k].name@);
        let f = find_folder(folders, entries[k].name@);
        assert(f != -1);
        if !(entries[k].target matches LinkTarget::Points(_)) {
            lemma_no_unreadable(entries, folders, entries.len(), k);
            assert(entry_unreadable(entries[k], folders));
        }
        assert(folders[f].0 == entries[k].name@);
    }
    assert forall|i: int|
        0 <= i < folders.len() && !created.contains(i) implies exists|k: int|
        0 <= k < entries.len() && #[trigger] entries[k].name@ == folders[i].0 && !entry_removed(
            entries[k],
            folders,
        ) && (entries[k].target matches LinkTarget::Points(t) && same_path(t@, folders[i].1)) by {
        lemma_plan_kept_contains(entries, folders, folders[i].0);
        assert(kept.contains(folders[i].0));
        let k = choose|k: int|
            0 <= k < entries.len() && #[trigger] entries[k].name@ == folders[i].0 && !entry_removed(
                entries[k],
                folders,
            );
        lemma_find_folder(folders, folders[i].0);
        let f = find_folder(folders, folders[i].0);
        assert(f == i) by {
            if f != i {
                if f < i {
                    assert(folders[f].0 != folders[i].0);
                } else {
                    assert(folders[i].0 != folders[i].0);
                }
            }
        }
        if !(entries[k].target matches LinkTarget::Points(_)) {
            lemma_no_unreadable(entries, folders, entries.len(), k);
            assert(entry_unreadable(entries[k], folders));
        }
    }
}

/// No link may take the name of the dock lock file.
pub proof fn lemma_lock_file_is_reserved()
    ensures
        link_name_issue(LOCK_FILE@) is Some,
{
    assert(crate::workspace::eq_ignore_ascii_case(LOCK_FILE@, LOCK_FILE@));
}

proof fn lemma_no_unreadable(entries: Seq<LinkEntry>, folders: Seq<(Seq<char>, Seq<char>)>, n: nat, k: int)
    requires
        first_unreadable(entries, folders, n) is None,
        0 <= k < n,
    ensures
        !entry_unreadable(entries[k], folders),
    decreases n,
{
    if k < n - 1 {
        lemma_no_unreadable(entries, folders, (n - 1) as nat, k);
    }
}

/// A lock read back gives the folders it was written from: for folders
/// with valid link names, the lock written for them has the current version
/// and reads back as exactly those folders.
pub proof fn lemma_lock_round_trip(workspace_path: Seq<char>, folders: Seq<(Seq<char>, Seq<char>)>)
    requires
        forall|i: int| 0 <= i < folders.len() ==> link_name_issue(#[trigger] folders[i].0) is None,
    ensures
        lock_view(workspace_path, folders).0 == LOCK_VERSION,
        lock_view(workspace_path, folders).1 == workspace_path,
        folders_from_links(lock_view(workspace_path, folders).2) == Ok::<
            Seq<(Seq<char>, Seq<char>)>,
            (int, NameIssue),
        >(folders),
    decreases folders.len(),
{
    if folders.len() > 0 {
        lemma_lock_round_trip(workspace_path, folders.drop_last());
        assert(folders.drop_last().push(folders.last()) =~= folders);
        assert(link_name_issue(folders[folders.len() - 1].0) is None);
        assert(folders_from_links(folders) == Ok::<Seq<(Seq<char>, Seq<char>)>, (int, NameIssue)>(
            folders.drop_last().push(folders.last()),
        ));
    } else {
        assert(folders =~= Seq::<(Seq<char>, Seq<char>)>::empty());
    }
}

proof fn lemma_first_entry_fault_none(entries: Seq<(Seq<char>, bool)>, names: Seq<Seq<char>>, n: nat)
    requires
        n <= entries.len(),
    ensures
        first_entry_fault(entries, names, n) is None <==> forall|i: int|
            0 <= i < n ==> entry_fault(#[trigger] entries[i], names) is None,
    decreases n,
{
    if n > 0 {
        lemma_first_entry_fault_none(entries, names, (n - 1) as nat);
    }
}

/// A dock is accepted as owned exactly when every entry but the lock file
/// is a symlink that the lock lists; in particular a dock holding only its
/// lock file and one symlink per folder the lock records is accepted.
pub proof fn lemma_owned_dock_entries(entries: Seq<(Seq<char>, bool)>, links: Seq<(Seq<char>, Seq<char>)>)
    ensures
        first_entry_fault(entries, link_names(links), entries.len()) is None <==> forall|i: int|
            0 <= i < entries.len() ==> (#[trigger] entries[i].0 == LOCK_FILE@ || (entries[i].1
                && link_names(links).contains(entries[i].0))),
{
    lemma_first_entry_fault_none(entries, link_names(links), entries.len());
}

proof fn lemma_locked_removals_members(entries: Seq<Seq<char>>, names: Seq<Seq<char>>, x: Seq<char>)
    ensures
        locked_removals(entries, names).contains(x) <==> entries.contains(x) && names.contains(x)
            && x != LOCK_FILE@,
    decreases entries.len(),
{
    if entries.len() > 0 {
        lemma_locked_removals_members(entries.drop_last(), names, x);
        let rest = locked_removals(entries.drop_last(), names);
        let all = locked_removals(entries, names);
        if entries.contains(x) && names.contains(x) && x != LOCK_FILE@ {
            let k = choose|k: int| 0 <= k < entries.len() && entries[k] == x;
            if k < entries.len() - 1 {
                assert(entries.drop_last()[k] == x);
                assert(rest.contains(x));
                let j = choose|j: int| 0 <= j < rest.len() && rest[j] == x;
                assert(all[j] == x);
            } else {
                assert(entries.last() == x);
                assert(all[all.len() - 1] == x);
            }
        }
        if all.contains(x) {
            let j = choose|j: int| 0 <= j < all.len() && all[j] == x;
            if j < rest.len() {
                assert(rest[j] == x);
                let k = choose|k: int| 0 <= k < entries.drop_last().len() && entries.drop_last()[k] == x;
                assert(entries[k] == x);
            } else {
                assert(entries[entries.len() - 1] == x);
            }
        }
    }
}

/// A rebuild or removal takes away exactly the entries of the dock that the
/// lock lists as links, every one of them, and never the lock file.
pub proof fn lemma_rebuild_removes_only_locked_links(entries: Seq<Seq<char>>, links: Seq<(Seq<char>, Seq<char>)>)
    ensures
        forall|x: Seq<char>|
            #[trigger] locked_removals(entries, link_names(links)).contains(x) <==> entries.contains(x)
                && link_names(links).contains(x) && x != LOCK_FILE@,
{
    assert forall|x: Seq<char>|
        #[trigger] locked_removals(entries, link_names(links)).contains(x) <==> entries.contains(x)
        && link_names(links).contains(x) && x != LOCK_FILE@ by {
        lemma_locked_removals_members(entries, link_names(links), x);
    }
}

proof fn lemma_plan_removals_members(entries: Seq<LinkEntry>, folders: Seq<(Seq<char>, Seq<char>)>, x: Seq<char>)
    ensures
        plan_removals(entries, folders).contains(x) ==> x != LOCK_FILE@ && exists|k: int|
            0 <= k < entries.len() && #[trigger] entries[k].name@ == x && entry_removed(
                entries[k],
                folders,
            ),
    decreases entries.len(),
{
    if entries.len() > 0 {
        let init = entries.drop_last();
        lemma_plan_removals_members(init, folders, x);
        let rest = plan_removals(init, folders);
        let all = plan_removals(entries, folders);
        if all.contains(x) {
            let j = choose|j: int| 0 <= j < all.len() && all[j] == x;
            if j < rest.len() {
                assert(rest[j] == x);
                let k = choose|k: int|
                    0 <= k < init.len() && #[trigger] init[k].name@ == x && entry_removed(
                        init[k],
                        folders,
                    );
                assert(entries[k] == init[k]);
            } else {
                assert(entries[entries.len() - 1].name@ == x);
            }
        }
    }
}

/// Reconciling removes only entries of the dock, never the lock file, and
/// never a link that already points where its folder wants.
pub proof fn lemma_reconcile_removes_only_stale_links(entries: Seq<LinkEntry>, folders: Seq<(Seq<char>, Seq<char>)>)
    ensures
        forall|x: Seq<char>|
            #[trigger] plan_removals(entries, folders).contains(x) ==> x != LOCK_FILE@ && exists|k: int|
                0 <= k < entries.len() && #[trigger] entries[k].name@ == x && entry_removed(
                    entries[k],
                    folders,
                ),
        forall|k: int|
            0 <= k < entries.len() && (#[trigger] entries[k].target matches LinkTarget::Points(t)
                && find_folder(folders, entries[k].name@) != -1 && same_path(t@, folders[find_folder(
                folders,
                entries[k].name@,
            )].1)) ==> !entry_removed(entries[k], folders),
{
    assert forall|x: Seq<char>|
        #[trigger] plan_removals(entries, folders).contains(x) implies x != LOCK_FILE@ && exists|k: int|
        0 <= k < entries.len() && #[trigger] entries[k].name@ == x && entry_removed(entries[k], folders) by {
        lemma_plan_removals_members(entries, folders, x);
    }
}

/// Checks that nothing is at the link path yet, given whether something is.
pub fn ensure_link_path_free(link: &str, present: bool) -> (r: Result<(), AppError>)
    ensures
        present ==> (r matches Err(AppError::DockLinkPathExists { path }) && path@ == link@),
        !present ==> r is Ok,
{
    if present {
        return Err(AppError::DockLinkPathExists { path: link.to_owned() });
    }
    Ok(())
}

/// Checks that the current directory can stand for a workspace: it is the
/// dock root that the workspace of its lock owns. `expected_dock` is that
/// dock root, or `None` where the current directory holds no dock lock.
pub fn ensure_current_dock(current_dir: &str, expected_dock: Option<&str>) -> (r: Result<
    (),
    AppError,
>)
    ensures
        (expected_dock matches Some(d) && same_path(current_dir@, d@)) ==> r is Ok,
        !(expected_dock matches Some(d) && same_path(current_dir@, d@)) ==> (r matches Err(
            AppError::WorkspaceReferenceRequired,
        )),
{
    match expected_dock {
        Some(d) => {
            if !crate::paths::paths_equal(current_dir, d) {
                return Err(AppError::WorkspaceReferenceRequired);
            }
            Ok(())
        },
        None => Err(AppError::WorkspaceReferenceRequired),
    }
}

} // verus!
