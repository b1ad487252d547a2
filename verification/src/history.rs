//! The history of a file: earlier versions, kept beside it in a directory of their own.
use crate::docx;
use crate::ops;
use crate::text;
use crate::text::{chars_of, decimal_text, parse_number, same_text, text_slice};
use vstd::prelude::*;
use vstd::string::*;

verus! {

// ---------------------------------------------------------------- paths

/// A path without the separators, and the `.` components, at its end.
pub open spec fn bare(path: Seq<char>) -> Seq<char>
    decreases path.len(),
{
    if path.len() > 1 && path.last() == '/' {
        bare(path.drop_last())
    } else if path.len() > 1 && path.last() == '.' && path[path.len() - 2] == '/' {
        bare(path.drop_last())
    } else {
        path
    }
}

/// Where the last component of a path begins: behind the last separator before position `n`.
pub open spec fn name_start(path: Seq<char>, n: int) -> int
    decreases n,
{
    if n <= 0 || n > path.len() {
        0
    } else if path[n - 1] == '/' {
        n
    } else {
        name_start(path, n - 1)
    }
}

/// The last component, unless it is `.` or `..` or there is none.
pub open spec fn file_name(path: Seq<char>) -> Option<Seq<char>> {
    let core = bare(path);
    let name = core.skip(name_start(core, core.len() as int));
    if name.len() == 0 || name == "."@ || name == ".."@ {
        None
    } else {
        Some(name)
    }
}

/// The path of something inside a directory.
pub open spec fn joined(dir: Seq<char>, name: Seq<char>) -> Seq<char> {
    if dir.len() == 0 || dir.last() == '/' {
        dir + name
    } else {
        dir + "/"@ + name
    }
}

/// The path with its last component replaced; where there is none, the name is added.
pub open spec fn with_name(path: Seq<char>, name: Seq<char>) -> Seq<char> {
    match file_name(path) {
        Some(_) => {
            let core = bare(path);
            joined(bare(core.take(name_start(core, core.len() as int))), name)
        },
        None => joined(path, name),
    }
}

/// The directory of the history of a file: beside it, with `.versions` added to its name.
pub open spec fn history_path(file: Seq<char>) -> Seq<char> {
    let name = match file_name(file) {
        Some(n) => n,
        None => Seq::empty(),
    };
    with_name(file, name + ".versions"@)
}

/// The length of a path without the separators, and the `.` components, at its end.
fn bare_len(chars: &Vec<char>, len: usize) -> (r: usize)
    requires
        len <= chars@.len(),
    ensures
        r <= len,
        chars@.take(r as int) == bare(chars@.take(len as int)),
{
    let mut n: usize = len;
    while n > 1 && (chars[n - 1] == '/' || (chars[n - 1] == '.' && chars[n - 2] == '/'))
        invariant
            n <= len <= chars@.len(),
            bare(chars@.take(len as int)) == bare(chars@.take(n as int)),
        decreases n,
    {
        proof {
            assert(chars@.take(n as int).drop_last() =~= chars@.take(n - 1));
            assert(chars@.take(n as int).last() == chars@[n - 1]);
        }
        n -= 1;
    }
    proof {
        if n > 0 {
            assert(chars@.take(n as int).last() == chars@[n - 1]);
        }
    }
    n
}

fn find_name(chars: &Vec<char>, len: usize) -> (r: usize)
    requires
        len <= chars@.len(),
    ensures
        r <= len,
        r == name_start(chars@.take(len as int), len as int),
{
    let ghost core = chars@.take(len as int);
    let mut n: usize = len;
    while n > 0 && chars[n - 1] != '/'
        invariant
            n <= len <= chars@.len(),
            core == chars@.take(len as int),
            name_start(core, len as int) == name_start(core, n as int),
        decreases n,
    {
        n -= 1;
    }
    n
}

/// Joins a directory and a name.
pub fn join_path(dir: &str, name: &str) -> (r: String)
    ensures
        r@ == joined(dir@, name@),
{
    let chars = chars_of(dir);
    let n = chars.len();
    let mut out = dir.to_string();
    if n > 0 && chars[n - 1] != '/' {
        out.append("/");
    }
    out.append(name);
    out
}

/// The directory of the history of a file: `/a/b/c.docx` has `/a/b/c.docx.versions`.
pub fn history_dir(file: &str) -> (r: String)
    ensures
        r@ == history_path(file@),
{
    let chars = chars_of(file);
    proof {
        assert(chars@.take(chars@.len() as int) =~= chars@);
    }
    let core = bare_len(&chars, chars.len());
    let at = find_name(&chars, core);
    let ghost body = bare(file@);
    let name = text_slice(chars.as_slice(), at, core);
    proof {
        assert(body.skip(at as int) =~= chars@.subrange(at as int, core as int));
    }
    if name.as_str().is_empty() || same_text(name.as_str(), ".") || same_text(name.as_str(), "..") {
        proof {
            assert(Seq::<char>::empty() + ".versions"@ =~= ".versions"@);
        }
        return join_path(file, ".versions");
    }
    let keep = bare_len(&chars, at);
    let dir = text_slice(chars.as_slice(), 0, keep);
    proof {
        assert(body.take(at as int) =~= chars@.take(at as int));
        assert(dir@ =~= chars@.take(keep as int));
    }
    let mut full = name;
    full.append(".versions");
    join_path(dir.as_str(), full.as_str())
}

// ---------------------------------------------------------------- names of versions

/// The last dot of a name before position `n`, unless it is the first character.
pub open spec fn last_dot(name: Seq<char>, n: int) -> Option<int>
    decreases n,
{
    if n <= 1 || n > name.len() {
        None
    } else if name[n - 1] == '.' {
        Some(n - 1)
    } else {
        last_dot(name, n - 1)
    }
}

/// A file name without its extension.
pub open spec fn stem(name: Seq<char>) -> Seq<char> {
    match last_dot(name, name.len() as int) {
        Some(i) => name.take(i),
        None => name,
    }
}

/// The extension of a file name, with its dot; nothing if there is none.
pub open spec fn dotted_ext(name: Seq<char>) -> Seq<char> {
    match last_dot(name, name.len() as int) {
        Some(i) => name.skip(i),
        None => Seq::empty(),
    }
}

fn find_dot(chars: &Vec<char>) -> (r: Option<usize>)
    ensures
        match r {
            Some(i) => last_dot(chars@, chars@.len() as int) == Some(i as int) && i < chars@.len(),
            None => last_dot(chars@, chars@.len() as int) is None,
        },
{
    let mut n: usize = chars.len();
    while n > 1
        invariant
            n <= chars@.len(),
            last_dot(chars@, chars@.len() as int) == last_dot(chars@, n as int),
        decreases n,
    {
        if chars[n - 1] == '.' {
            return Some(n - 1);
        }
        n -= 1;
    }
    None
}

/// The last component of a path, unless it is `.` or `..` or there is none.
pub fn name_of(path: &str) -> (r: Option<String>)
    ensures
        docx::opt_text(r) == file_name(path@),
{
    let chars = chars_of(path);
    proof {
        assert(chars@.take(chars@.len() as int) =~= chars@);
    }
    let core = bare_len(&chars, chars.len());
    let at = find_name(&chars, core);
    let name = text_slice(chars.as_slice(), at, core);
    proof {
        assert(bare(path@).skip(at as int) =~= chars@.subrange(at as int, core as int));
    }
    if name.as_str().is_empty() || same_text(name.as_str(), ".") || same_text(name.as_str(), "..") {
        None
    } else {
        Some(name)
    }
}

/// The extension of the file at a path, with its dot.
pub open spec fn path_ext(path: Seq<char>) -> Seq<char> {
    match file_name(path) {
        Some(name) => dotted_ext(name),
        None => Seq::empty(),
    }
}

/// The extension of the file at a path, with its dot; nothing if there is none.
pub fn extension_of(path: &str) -> (r: String)
    ensures
        r@ == path_ext(path@),
{
    match name_of(path) {
        Some(name) => {
            let chars = chars_of(name.as_str());
            let n = chars.len();
            match find_dot(&chars) {
                Some(i) => {
                    proof {
                        assert(chars@.subrange(i as int, n as int) =~= chars@.skip(i as int));
                    }
                    text_slice(chars.as_slice(), i, n)
                },
                None => String::new(),
            }
        },
        None => String::new(),
    }
}

/// `n` zeros.
pub open spec fn zeros(n: nat) -> Seq<char> {
    Seq::new(n, |i: int| '0')
}

/// A number in decimal notation with zeros before it, at least 13 characters long.
pub open spec fn padded(n: nat) -> Seq<char> {
    let d = text::decimal(n);
    if d.len() >= 13 {
        d
    } else {
        zeros((13 - d.len()) as nat) + d
    }
}

/// The name of the version of a moment.
pub open spec fn version_name(millis: nat, ext: Seq<char>) -> Seq<char> {
    padded(millis) + ext
}

/// The name of the version of a moment: the milliseconds, padded to 13 digits, and the extension.
pub fn name_version(millis: u64, ext: &str) -> (r: String)
    ensures
        r@ == version_name(millis as nat, ext@),
{
    let digits = decimal_text(millis);
    let len = digits.as_str().unicode_len();
    let mut out = String::new();
    let ghost d = text::decimal(millis as nat);
    if len < 13 {
        let need: usize = 13 - len;
        let mut k: usize = 0;
        while k < need
            invariant
                k <= need,
                out@ == zeros(k as nat),
            decreases need - k,
        {
            out.push('0');
            proof {
                assert(zeros(k as nat).push('0') =~= zeros((k + 1) as nat));
            }
            k += 1;
        }
    }
    out.append(digits.as_str());
    proof {
        if len >= 13 {
            assert(out@ =~= d);
        }
    }
    out.append(ext);
    out
}

// ---------------------------------------------------------------- listing

/// One version: where it lies, and the moment at which it was taken.
#[derive(Debug, PartialEq)]
pub struct Version {
    pub path: String,
    pub millis: u64,
}

/// What a `Version` holds.
#[verifier::ext_equal]
pub struct VersionView {
    pub path: Seq<char>,
    pub millis: u64,
}

impl View for Version {
    type V = VersionView;

    open spec fn view(&self) -> VersionView {
        VersionView { path: self.path@, millis: self.millis }
    }
}

impl Clone for Version {
    fn clone(&self) -> (r: Self)
        ensures
            r == *self,
    {
        Version { path: self.path.clone(), millis: self.millis }
    }
}

/// The version at a path; nothing if the name is not that of a version.
pub open spec fn version_at(path: Seq<char>) -> Option<VersionView> {
    match file_name(path) {
        Some(name) => match text::number_in(stem(name)) {
            Some(millis) => Some(VersionView { path, millis }),
            None => None,
        },
        None => None,
    }
}

/// Reads a path as that of a version.
pub fn read_version(path: &str) -> (r: Option<Version>)
    ensures
        match r {
            Some(v) => version_at(path@) == Some(v@),
            None => version_at(path@) is None,
        },
{
    let name = match name_of(path) {
        Some(n) => n,
        None => return None,
    };
    let chars = chars_of(name.as_str());
    let n = chars.len();
    let end = match find_dot(&chars) {
        Some(i) => i,
        None => n,
    };
    let base = text_slice(chars.as_slice(), 0, end);
    proof {
        assert(base@ =~= stem(name@));
    }
    match parse_number(base.as_str()) {
        Some(millis) => Some(Version { path: path.to_string(), millis }),
        None => None,
    }
}

/// Where a version of this moment goes in a list that is newest first: before the first older one.
pub open spec fn slot(list: Seq<VersionView>, millis: u64, n: int) -> int
    decreases n,
{
    if n <= 0 {
        0
    } else if list[n - 1].millis >= millis {
        n
    } else {
        slot(list, millis, n - 1)
    }
}

/// The versions at the first `n` paths, newest first; those of one moment in the order in which
/// they came.
pub open spec fn listed(paths: Seq<Seq<char>>, n: int) -> Seq<VersionView>
    decreases n,
{
    if n <= 0 {
        Seq::empty()
    } else {
        let rest = listed(paths, n - 1);
        match version_at(paths[n - 1]) {
            Some(v) => rest.insert(slot(rest, v.millis, rest.len() as int), v),
            None => rest,
        }
    }
}

/// Lists the versions among the files of a history directory, newest first. A file whose name is
/// not a moment is skipped.
pub fn versions_among(paths: &Vec<String>) -> (r: Vec<Version>)
    ensures
        ops::seen(r@) == listed(ops::seen(paths@), paths@.len() as int),
{
    let ghost ps = ops::seen(paths@);
    let mut list: Vec<Version> = Vec::new();
    proof {
        assert(ops::seen(list@) =~= listed(ps, 0));
    }
    let mut i: usize = 0;
    while i < paths.len()
        invariant
            i <= paths@.len(),
            ps == ops::seen(paths@),
            ops::seen(list@) == listed(ps, i as int),
        decreases paths@.len() - i,
    {
        proof {
            assert(ps[i as int] == paths@[i as int]@);
        }
        if let Some(v) = read_version(paths[i].as_str()) {
            let ghost rest = ops::seen(list@);
            let ghost was = list@;
            let mut k: usize = list.len();
            while k > 0 && list[k - 1].millis < v.millis
                invariant
                    k <= list@.len(),
                    list@ == was,
                    rest == ops::seen(list@),
                    slot(rest, v.millis, rest.len() as int) == slot(rest, v.millis, k as int),
                decreases k,
            {
                proof {
                    assert(rest[k - 1] == list@[k - 1]@);
                }
                k -= 1;
            }
            proof {
                if k > 0 {
                    assert(rest[k - 1] == list@[k - 1]@);
                }
            }
            list.insert(k, v);
            proof {
                assert(ops::seen(list@) =~= rest.insert(k as int, v@));
            }
        }
        i += 1;
    }
    list
}

/// The list is newest first.
pub open spec fn newest_first(list: Seq<VersionView>) -> bool {
    forall|i: int, j: int| 0 <= i <= j < list.len() ==> list[i].millis >= list[j].millis
}

pub proof fn lemma_slot(list: Seq<VersionView>, millis: u64, n: int)
    requires
        newest_first(list),
        0 <= n <= list.len(),
        forall|i: int| n <= i < list.len() ==> (#[trigger] list[i]).millis < millis,
    ensures
        0 <= slot(list, millis, n) <= n,
        forall|i: int| 0 <= i < slot(list, millis, n) ==> (#[trigger] list[i]).millis >= millis,
        forall|i: int| slot(list, millis, n) <= i < list.len() ==> (#[trigger] list[i]).millis < millis,
    decreases n,
{
    if n > 0 && list[n - 1].millis < millis {
        lemma_slot(list, millis, n - 1);
    }
}

/// The versions of a file are listed newest first.
pub proof fn law_versions_are_newest_first(paths: Seq<Seq<char>>, n: int)
    requires
        0 <= n <= paths.len(),
    ensures
        newest_first(listed(paths, n)),
    decreases n,
{
    if n > 0 {
        law_versions_are_newest_first(paths, n - 1);
        let rest = listed(paths, n - 1);
        if let Some(v) = version_at(paths[n - 1]) {
            lemma_slot(rest, v.millis, rest.len() as int);
            let k = slot(rest, v.millis, rest.len() as int);
            let out = rest.insert(k, v);
            assert forall|i: int, j: int| 0 <= i <= j < out.len() implies out[i].millis
                >= out[j].millis by {
                let a = if i < k {
                    i
                } else {
                    i - 1
                };
                let b = if j < k {
                    j
                } else {
                    j - 1
                };
                if i != k {
                    assert(out[i] == rest[a]);
                }
                if j != k {
                    assert(out[j] == rest[b]);
                }
            }
        }
    }
}

/// A version is listed if and only if its file is there, and nothing else is listed.
pub proof fn law_listing_is_complete(paths: Seq<Seq<char>>, n: int, v: VersionView)
    requires
        0 <= n <= paths.len(),
    ensures
        listed(paths, n).contains(v) <==> exists|i: int|
            0 <= i < n && version_at(#[trigger] paths[i]) == Some(v),
    decreases n,
{
    if n > 0 {
        law_listing_is_complete(paths, n - 1, v);
        law_versions_are_newest_first(paths, n - 1);
        let rest = listed(paths, n - 1);
        let out = listed(paths, n);
        match version_at(paths[n - 1]) {
            Some(w) => {
                lemma_slot(rest, w.millis, rest.len() as int);
                let k = slot(rest, w.millis, rest.len() as int);
                assert(out == rest.insert(k, w));
                assert(out[k] == w);
                if rest.contains(v) {
                    let i = choose|i: int| 0 <= i < rest.len() && rest[i] == v;
                    if i < k {
                        assert(out[i] == v);
                    } else {
                        assert(out[i + 1] == v);
                    }
                }
                if out.contains(v) && v != w {
                    let i = choose|i: int| 0 <= i < out.len() && out[i] == v;
                    if i < k {
                        assert(rest[i] == v);
                    } else {
                        assert(rest[i - 1] == v);
                    }
                }
            },
            None => {},
        }
        if exists|i: int| 0 <= i < n - 1 && version_at(#[trigger] paths[i]) == Some(v) {
            let i = choose|i: int| 0 <= i < n - 1 && version_at(#[trigger] paths[i]) == Some(v);
            assert(0 <= i < n && version_at(paths[i]) == Some(v));
        }
    }
}

// ---------------------------------------------------------------- pruning

/// The number of versions that are kept of a file.
pub const MAX_VERSIONS: usize = 50;

/// The versions to delete so that the newest `keep` stay. Keeping none means keeping all.
pub open spec fn surplus(list: Seq<VersionView>, keep: nat) -> Seq<VersionView> {
    if keep == 0 || list.len() <= keep {
        Seq::empty()
    } else {
        list.skip(keep as int)
    }
}

/// The versions to delete from a list that is newest first, so that `keep` stay.
pub fn versions_to_prune(versions: &Vec<Version>, keep: usize) -> (r: Vec<Version>)
    ensures
        ops::seen(r@) == surplus(ops::seen(versions@), keep as nat),
{
    let mut out: Vec<Version> = Vec::new();
    if keep == 0 || versions.len() <= keep {
        proof {
            assert(ops::seen(out@) =~= Seq::empty());
        }
        return out;
    }
    let mut i: usize = keep;
    while i < versions.len()
        invariant
            keep <= i <= versions@.len(),
            out@ == versions@.subrange(keep as int, i as int),
        decreases versions@.len() - i,
    {
        out.push(versions[i].clone());
        i += 1;
    }
    proof {
        assert(ops::seen(out@) =~= ops::seen(versions@).skip(keep as int));
    }
    out
}

/// Pruning keeps the newest: what is deleted is no newer than anything that stays, and `keep`
/// versions stay where there were more.
pub proof fn law_prune_keeps_the_newest(list: Seq<VersionView>, keep: nat, i: int, j: int)
    requires
        newest_first(list),
        keep > 0,
        0 <= i < list.len() - surplus(list, keep).len(),
        0 <= j < surplus(list, keep).len(),
    ensures
        list[i].millis >= surplus(list, keep)[j].millis,
        list.len() - surplus(list, keep).len() == keep,
{
}

/// A list within the limit is left alone, and so is any list when the limit is zero.
pub proof fn law_prune_under_the_limit_is_nothing(list: Seq<VersionView>, keep: nat)
    requires
        list.len() <= keep || keep == 0,
    ensures
        surplus(list, keep).len() == 0,
{
}

/// The head of a list is never pruned.
pub proof fn law_head_of_the_list_survives(list: Seq<VersionView>, keep: nat)
    requires
        newest_first(list),
        list.len() > 0,
    ensures
        surplus(list, keep).len() < list.len(),
        list.take(list.len() - surplus(list, keep).len())[0] == list[0],
{
}

/// The versions at different places are of different moments.
pub open spec fn moments_differ(paths: Seq<Seq<char>>) -> bool {
    forall|i: int, j: int|
        0 <= i < j < paths.len() && version_at(#[trigger] paths[i]) is Some && version_at(
            #[trigger] paths[j],
        ) is Some ==> version_at(paths[i])->Some_0.millis != version_at(paths[j])->Some_0.millis
}

/// Each version is newer than the next.
pub open spec fn strictly_newest_first(list: Seq<VersionView>) -> bool {
    forall|i: int, j: int|
        0 <= i < j < list.len() ==> (#[trigger] list[i]).millis > (#[trigger] list[j]).millis
}

/// The path is that of one of the versions.
pub open spec fn names_one(versions: Seq<VersionView>, path: Seq<char>) -> bool {
    exists|i: int| 0 <= i < versions.len() && (#[trigger] versions[i]).path == path
}

/// `rest` holds, in any order, what is left of `paths` when the files of the versions `gone` are
/// deleted.
pub open spec fn is_left(paths: Seq<Seq<char>>, gone: Seq<VersionView>, rest: Seq<Seq<char>>) -> bool {
    &&& rest.no_duplicates()
    &&& forall|p: Seq<char>| #[trigger]
        rest.contains(p) <==> paths.contains(p) && !names_one(gone, p)
}

proof fn lemma_listed_strictly(paths: Seq<Seq<char>>, n: int)
    requires
        moments_differ(paths),
        0 <= n <= paths.len(),
    ensures
        strictly_newest_first(listed(paths, n)),
    decreases n,
{
    if n > 0 {
        lemma_listed_strictly(paths, n - 1);
        law_versions_are_newest_first(paths, n - 1);
        let rest = listed(paths, n - 1);
        if let Some(v) = version_at(paths[n - 1]) {
            lemma_slot(rest, v.millis, rest.len() as int);
            let k = slot(rest, v.millis, rest.len() as int);
            let out = rest.insert(k, v);
            assert forall|i: int| 0 <= i < rest.len() implies (#[trigger] rest[i]).millis
                != v.millis by {
                assert(rest.contains(rest[i]));
                law_listing_is_complete(paths, n - 1, rest[i]);
                let j = choose|j: int|
                    0 <= j < n - 1 && version_at(#[trigger] paths[j]) == Some(rest[i]);
                assert(version_at(paths[j]) is Some && version_at(paths[n - 1]) is Some);
            }
            assert forall|i: int, j: int| 0 <= i < j < out.len() implies (#[trigger] out[i]).millis > (
            #[trigger] out[j]).millis by {
                let a = if i < k {
                    i
                } else {
                    i - 1
                };
                let b = if j < k {
                    j
                } else {
                    j - 1
                };
                if i != k {
                    assert(out[i] == rest[a]);
                }
                if j != k {
                    assert(out[j] == rest[b]);
                }
            }
        }
    }
}

/// Two lists with the same versions, each newer than the next, are the same.
proof fn lemma_same_listing(a: Seq<VersionView>, b: Seq<VersionView>)
    requires
        strictly_newest_first(a),
        strictly_newest_first(b),
        forall|v: VersionView| #[trigger] a.contains(v) <==> b.contains(v),
    ensures
        a == b,
    decreases a.len(),
{
    if a.len() == 0 {
        if b.len() > 0 {
            assert(b.contains(b[0]));
            assert(a.contains(b[0]));
        }
        assert(a =~= b);
    } else {
        assert(a.contains(a[0]));
        let x = choose|x: int| 0 <= x < b.len() && b[x] == a[0];
        assert(b.contains(b[0]));
        assert(a.contains(b[0]));
        let y = choose|y: int| 0 <= y < a.len() && a[y] == b[0];
        assert(x == 0);
        let ta = a.skip(1);
        let tb = b.skip(1);
        assert forall|v: VersionView| #[trigger] ta.contains(v) <==> tb.contains(v) by {
            if ta.contains(v) {
                let i = choose|i: int| 0 <= i < ta.len() && ta[i] == v;
                assert(a[i + 1] == v);
                assert(a.contains(v));
                let j = choose|j: int| 0 <= j < b.len() && b[j] == v;
                assert(j > 0);
                assert(tb[j - 1] == v);
            }
            if tb.contains(v) {
                let i = choose|i: int| 0 <= i < tb.len() && tb[i] == v;
                assert(b[i + 1] == v);
                assert(b.contains(v));
                assert(a.contains(v));
                let j = choose|j: int| 0 <= j < a.len() && a[j] == v;
                assert(j > 0);
                assert(ta[j - 1] == v);
            }
        }
        lemma_same_listing(ta, tb);
        assert(a =~= seq![a[0]] + ta);
        assert(b =~= seq![b[0]] + tb);
    }
}

/// What pruning leaves: once the surplus is deleted, a new listing gives the newest `keep` versions
/// and nothing else, a second prune finds nothing to delete, and files that are no versions are all
/// still there. Keeping none means that nothing is deleted.
pub proof fn law_listing_after_pruning(paths: Seq<Seq<char>>, rest: Seq<Seq<char>>, keep: nat)
    requires
        moments_differ(paths),
        is_left(paths, surplus(listed(paths, paths.len() as int), keep), rest),
    ensures
        ({
            let before = listed(paths, paths.len() as int);
            let after = listed(rest, rest.len() as int);
            let gone = surplus(before, keep);
            let stay = if keep == 0 || before.len() <= keep {
                before.len()
            } else {
                keep
            };
            &&& gone.len() == before.len() - stay
            &&& after == before.take(stay as int)
            &&& surplus(after, keep).len() == 0
            &&& forall|p: Seq<char>| #[trigger]
                paths.contains(p) && version_at(p) is None ==> rest.contains(p)
            &&& keep == 0 ==> forall|p: Seq<char>| #[trigger] paths.contains(p) ==> rest.contains(p)
        }),
{
    let n = paths.len() as int;
    let m = rest.len() as int;
    let before = listed(paths, n);
    let after = listed(rest, m);
    let gone = surplus(before, keep);
    let stay = before.len() - gone.len();
    let kept = before.take(stay);
    assert forall|i: int, j: int|
        0 <= i < j < rest.len() && version_at(#[trigger] rest[i]) is Some && version_at(
            #[trigger] rest[j],
        ) is Some implies version_at(rest[i])->Some_0.millis != version_at(rest[j])->Some_0.millis by {
        assert(rest.contains(rest[i]) && rest.contains(rest[j]));
        let a = choose|a: int| 0 <= a < paths.len() && paths[a] == rest[i];
        let b = choose|b: int| 0 <= b < paths.len() && paths[b] == rest[j];
        if a < b {
            assert(version_at(paths[a]) is Some && version_at(paths[b]) is Some);
        } else {
            assert(version_at(paths[b]) is Some && version_at(paths[a]) is Some);
        }
    }
    lemma_listed_strictly(paths, n);
    lemma_listed_strictly(rest, m);
    assert forall|i: int| 0 <= i < gone.len() implies version_at((#[trigger] gone[i]).path) == Some(
        gone[i],
    ) by {
        assert(gone[i] == before[stay + i]);
        assert(before.contains(gone[i]));
        law_listing_is_complete(paths, n, gone[i]);
    }
    assert forall|v: VersionView| #[trigger] after.contains(v) <==> kept.contains(v) by {
        law_listing_is_complete(rest, m, v);
        law_listing_is_complete(paths, n, v);
        if after.contains(v) {
            let i = choose|i: int| 0 <= i < m && version_at(#[trigger] rest[i]) == Some(v);
            assert(rest.contains(rest[i]));
            assert(v.path == rest[i]);
            let a = choose|a: int| 0 <= a < n && paths[a] == rest[i];
            assert(version_at(paths[a]) == Some(v));
            let x = choose|x: int| 0 <= x < before.len() && before[x] == v;
            if x >= stay {
                assert(gone[x - stay] == v);
                assert(names_one(gone, v.path));
            }
            assert(kept[x] == v);
        }
        if kept.contains(v) {
            let x = choose|x: int| 0 <= x < kept.len() && kept[x] == v;
            assert(before[x] == v);
            assert(before.contains(v));
            let a = choose|a: int| 0 <= a < n && version_at(#[trigger] paths[a]) == Some(v);
            assert(v.path == paths[a]);
            assert(paths.contains(paths[a]));
            if names_one(gone, v.path) {
                let g = choose|g: int| 0 <= g < gone.len() && (#[trigger] gone[g]).path == v.path;
                assert(gone[g] == v);
                assert(before[stay + g] == v);
            }
            assert(rest.contains(v.path));
            let i = choose|i: int| 0 <= i < rest.len() && rest[i] == v.path;
            assert(version_at(rest[i]) == Some(v));
        }
    }
    lemma_same_listing(after, kept);
    assert forall|p: Seq<char>| #[trigger]
        paths.contains(p) && (version_at(p) is None || keep == 0) implies rest.contains(p) by {
        if names_one(gone, p) {
            let g = choose|g: int| 0 <= g < gone.len() && (#[trigger] gone[g]).path == p;
            assert(version_at(gone[g].path) is Some);
        }
    }
}

// ---------------------------------------------------------------- taking a version

/// The name is in use.
pub open spec fn in_use(taken: Seq<Seq<char>>, name: Seq<char>) -> bool {
    taken.contains(name)
}

/// The first moment at or after `millis` whose name is not in use. There is none when every later
/// moment that 64 bits can hold is in use.
pub fn free_moment(millis: u64, ext: &str, taken: &Vec<String>) -> (r: Option<u64>)
    ensures
        match r {
            Some(m) => millis <= m && !in_use(
                ops::seen(taken@),
                version_name(m as nat, ext@),
            ) && forall|k: int|
                millis <= k < m ==> in_use(
                    ops::seen(taken@),
                    #[trigger] version_name(k as nat, ext@),
                ),
            None => forall|k: int|
                millis <= k <= u64::MAX ==> in_use(
                    ops::seen(taken@),
                    #[trigger] version_name(k as nat, ext@),
                ),
        },
{
    let ghost names = ops::seen(taken@);
    let mut m: u64 = millis;
    loop
        invariant
            names == ops::seen(taken@),
            millis <= m,
            forall|k: int|
                millis <= k < m ==> in_use(names, #[trigger] version_name(k as nat, ext@)),
        decreases u64::MAX - m,
    {
        let name = name_version(m, ext);
        if !is_taken(taken, name.as_str()) {
            return Some(m);
        }
        if m == u64::MAX {
            return None;
        }
        m += 1;
    }
}

/// The moment is later than those of all versions.
pub open spec fn is_later(list: Seq<VersionView>, millis: int) -> bool {
    forall|i: int| 0 <= i < list.len() ==> (#[trigger] list[i]).millis < millis
}

/// The moment of a version to be stored: the first one, not before `now`, that is later than all
/// versions and whose name is not in use. There is none when 64 bits can hold no such moment.
pub fn new_moment(now: u64, ext: &str, taken: &Vec<String>, versions: &Vec<Version>) -> (r: Option<
    u64,
>)
    ensures
        ({
            let names = ops::seen(taken@);
            let list = ops::seen(versions@);
            match r {
                Some(m) => now <= m && is_later(list, m as int) && !in_use(
                    names,
                    version_name(m as nat, ext@),
                ) && forall|k: int|
                    now <= k < m && is_later(list, k) ==> in_use(
                        names,
                        #[trigger] version_name(k as nat, ext@),
                    ),
                None => forall|k: int|
                    now <= k <= u64::MAX && is_later(list, k) ==> in_use(
                        names,
                        #[trigger] version_name(k as nat, ext@),
                    ),
            }
        }),
{
    let ghost list = ops::seen(versions@);
    let mut from: u64 = now;
    let mut i: usize = 0;
    while i < versions.len()
        invariant
            i <= versions@.len(),
            list == ops::seen(versions@),
            now <= from,
            forall|j: int| 0 <= j < i ==> (#[trigger] list[j]).millis < from,
            forall|k: int| #[trigger] is_later(list, k) && now <= k ==> from <= k,
        decreases versions@.len() - i,
    {
        proof {
            assert(list[i as int] == versions@[i as int]@);
        }
        let at = versions[i].millis;
        if at >= from {
            if at == u64::MAX {
                return None;
            }
            from = at + 1;
        }
        i += 1;
    }
    proof {
        assert(is_later(list, from as int));
    }
    free_moment(from, ext, taken)
}

fn is_taken(taken: &Vec<String>, name: &str) -> (r: bool)
    ensures
        r == in_use(ops::seen(taken@), name@),
{
    let ghost names = ops::seen(taken@);
    let mut i: usize = 0;
    while i < taken.len()
        invariant
            i <= taken@.len(),
            names == ops::seen(taken@),
            forall|j: int| 0 <= j < i ==> #[trigger] names[j] != name@,
        decreases taken@.len() - i,
    {
        proof {
            assert(names[i as int] == taken@[i as int]@);
        }
        if same_text(taken[i].as_str(), name) {
            return true;
        }
        i += 1;
    }
    false
}

/// Whether two contents are the same.
pub fn same_bytes(a: &Vec<u8>, b: &Vec<u8>) -> (r: bool)
    ensures
        r == (a@ == b@),
{
    if a.len() != b.len() {
        return false;
    }
    let mut i: usize = 0;
    while i < a.len()
        invariant
            i <= a@.len(),
            a@.len() == b@.len(),
            forall|j: int| 0 <= j < i ==> a@[j] == b@[j],
        decreases a@.len() - i,
    {
        if a[i] != b[i] {
            return false;
        }
        i += 1;
    }
    proof {
        assert(a@ =~= b@);
    }
    true
}

/// Whether a content is already in the history. A version that could not be read counts for
/// nothing.
pub fn already_kept(current: &Vec<u8>, kept: &Vec<Option<Vec<u8>>>) -> (r: bool)
    ensures
        r == exists|i: int|
            0 <= i < kept@.len() && docx::opt_bytes(#[trigger] kept@[i]) == Some(current@),
{
    let mut i: usize = 0;
    while i < kept.len()
        invariant
            i <= kept@.len(),
            forall|j: int|
                0 <= j < i ==> docx::opt_bytes(#[trigger] kept@[j]) != Some(current@),
        decreases kept@.len() - i,
    {
        if let Some(b) = &kept[i] {
            if same_bytes(b, current) {
                proof {
                    assert(docx::opt_bytes(kept@[i as int]) == Some(current@));
                }
                return true;
            }
        }
        i += 1;
    }
    false
}

// ---------------------------------------------------------------- laws of names

pub proof fn lemma_decimal_value(n: nat)
    ensures
        text::digits_value(text::decimal(n)) == Some(n),
        text::decimal(n).len() > 0,
        forall|i: int|
            0 <= i < text::decimal(n).len() ==> '0' <= #[trigger] text::decimal(n)[i] <= '9',
    decreases n,
{
    let d = text::decimal(n);
    if n < 10 {
        assert(d.drop_last() =~= Seq::empty());
        assert(text::digits_value(d.drop_last()) == Some(0nat));
        assert(text::digit_value(d.last()) == Some(n));
    } else {
        lemma_decimal_value(n / 10);
        assert(d.drop_last() =~= text::decimal(n / 10));
        assert(text::digit_value(d.last()) == Some(n % 10));
        assert forall|i: int| 0 <= i < d.len() implies '0' <= #[trigger] d[i] <= '9' by {
            if i < d.len() - 1 {
                assert(d[i] == text::decimal(n / 10)[i]);
            }
        }
    }
}

proof fn lemma_zeros_value(k: nat, s: Seq<char>)
    ensures
        text::digits_value(zeros(k) + s) == text::digits_value(s),
    decreases s.len(), k,
{
    let t = zeros(k) + s;
    if s.len() > 0 {
        assert(t.drop_last() =~= zeros(k) + s.drop_last());
        assert(t.last() == s.last());
        lemma_zeros_value(k, s.drop_last());
    } else if k > 0 {
        assert(t =~= zeros(k));
        assert(t.drop_last() =~= zeros((k - 1) as nat) + s);
        assert(text::digit_value(t.last()) == Some(0nat));
        lemma_zeros_value((k - 1) as nat, s);
    } else {
        assert(t =~= s);
    }
}

proof fn lemma_padded(n: nat)
    ensures
        text::digits_value(padded(n)) == Some(n),
        padded(n).len() >= 13,
        forall|i: int| 0 <= i < padded(n).len() ==> '0' <= #[trigger] padded(n)[i] <= '9',
{
    let d = text::decimal(n);
    lemma_decimal_value(n);
    if d.len() < 13 {
        lemma_zeros_value((13 - d.len()) as nat, d);
    }
    assert forall|i: int| 0 <= i < padded(n).len() implies '0' <= #[trigger] padded(n)[i] <= '9' by {
        if d.len() < 13 && i >= 13 - d.len() {
            assert(padded(n)[i] == d[i - (13 - d.len())]);
        }
    }
}

proof fn lemma_no_dot(s: Seq<char>, tail: Seq<char>, n: int)
    requires
        0 <= n <= s.len(),
        forall|i: int| 0 <= i < s.len() ==> #[trigger] s[i] != '.',
    ensures
        last_dot(s + tail, n) is None,
    decreases n,
{
    if n > 1 {
        assert((s + tail)[n - 1] == s[n - 1]);
        lemma_no_dot(s, tail, n - 1);
    }
}

proof fn lemma_dot_at(s: Seq<char>, tail: Seq<char>, n: int)
    requires
        s.len() > 0,
        tail.len() > 0,
        tail[0] == '.',
        forall|i: int| 1 <= i < tail.len() ==> #[trigger] tail[i] != '.',
        s.len() < n <= s.len() + tail.len(),
    ensures
        last_dot(s + tail, n) == Some(s.len() as int),
    decreases n,
{
    if n - 1 > s.len() {
        assert((s + tail)[n - 1] == tail[n - 1 - s.len()]);
        lemma_dot_at(s, tail, n - 1);
    } else {
        assert((s + tail)[n - 1] == tail[0]);
    }
}

proof fn lemma_listed_head(paths: Seq<Seq<char>>, n: int, at: int, v: VersionView)
    requires
        0 <= n <= paths.len(),
        0 <= at < paths.len(),
        version_at(paths[at]) == Some(v),
        forall|j: int|
            0 <= j < paths.len() && j != at ==> (version_at(#[trigger] paths[j]) matches Some(w)
                ==> w.millis < v.millis),
    ensures
        at >= n ==> is_later(listed(paths, n), v.millis as int),
        at < n ==> listed(paths, n).len() > 0 && listed(paths, n)[0] == v && is_later(
            listed(paths, n).skip(1),
            v.millis as int,
        ),
    decreases n,
{
    if n > 0 {
        lemma_listed_head(paths, n - 1, at, v);
        law_versions_are_newest_first(paths, n - 1);
        let rest = listed(paths, n - 1);
        let out = listed(paths, n);
        if let Some(w) = version_at(paths[n - 1]) {
            lemma_slot(rest, w.millis, rest.len() as int);
            let k = slot(rest, w.millis, rest.len() as int);
            if at == n - 1 {
                if k > 0 {
                    assert(rest[0].millis >= w.millis);
                }
                assert(out.skip(1) =~= rest);
            } else {
                if at < n - 1 {
                    if k == 0 {
                        assert(rest[0].millis < w.millis);
                    }
                    assert(out.skip(1) =~= rest.skip(1).insert(k - 1, w));
                }
                let tail = if at < n - 1 {
                    out.skip(1)
                } else {
                    out
                };
                assert(is_later(tail, v.millis as int));
            }
        }
    }
}

/// A version that is stored at a moment later than all others is the newest, and no pruning
/// deletes it.
pub proof fn law_stored_version_is_the_newest(
    paths: Seq<Seq<char>>,
    at: int,
    v: VersionView,
    keep: nat,
)
    requires
        0 <= at < paths.len(),
        version_at(paths[at]) == Some(v),
        forall|j: int|
            0 <= j < paths.len() && j != at ==> (version_at(#[trigger] paths[j]) matches Some(w)
                ==> w.millis < v.millis),
    ensures
        listed(paths, paths.len() as int)[0] == v,
        !names_one(surplus(listed(paths, paths.len() as int), keep), v.path),
{
    let n = paths.len() as int;
    let list = listed(paths, n);
    lemma_listed_head(paths, n, at, v);
    let gone = surplus(list, keep);
    if names_one(gone, v.path) {
        let i = choose|i: int| 0 <= i < gone.len() && (#[trigger] gone[i]).path == v.path;
        let w = list.skip(1)[keep + i - 1];
        assert(w == gone[i]);
        assert(list[keep + i] == w);
        assert(list.contains(w));
        law_listing_is_complete(paths, n, w);
        assert(w == v);
    }
}

proof fn lemma_name_start(path: Seq<char>, n: int, from: int)
    requires
        0 <= from <= n <= path.len(),
        from == 0 || path[from - 1] == '/',
        forall|i: int| from <= i < n ==> #[trigger] path[i] != '/',
    ensures
        name_start(path, n) == from,
    decreases n,
{
    if n > from {
        lemma_name_start(path, n - 1, from);
    }
}

/// What was stored as the version of a moment is read as the version of that moment.
pub proof fn law_stored_version_reads_back(dir: Seq<char>, millis: u64, ext: Seq<char>)
    requires
        ext.len() == 0 || (ext[0] == '.' && forall|i: int|
            1 <= i < ext.len() ==> #[trigger] ext[i] != '.' && ext[i] != '/'),
    ensures
        ({
            let path = joined(dir, version_name(millis as nat, ext));
            version_at(path) == Some(VersionView { path, millis })
        }),
{
    let name = version_name(millis as nat, ext);
    let path = joined(dir, name);
    let p = padded(millis as nat);
    let from = path.len() - name.len();
    lemma_padded(millis as nat);
    law_version_name_reads_back(millis, ext);
    reveal_strlit("/");
    reveal_strlit(".");
    reveal_strlit("..");
    assert(path =~= path.take(from) + name);
    assert(from == 0 || path[from - 1] == '/');
    assert forall|i: int| from <= i < path.len() implies #[trigger] path[i] != '/' by {
        if i < from + p.len() {
            assert(path[i] == p[i - from]);
        } else {
            assert(path[i] == ext[i - from - p.len()]);
        }
    }
    assert(path[path.len() - 2] != '/');
    assert(path[path.len() - 1] != '/');
    assert(bare(path) == path);
    lemma_name_start(path, path.len() as int, from);
    assert(path.skip(from) =~= name);
}

proof fn lemma_last_dot(name: Seq<char>, n: int)
    requires
        0 <= n <= name.len(),
    ensures
        last_dot(name, n) matches Some(i) ==> 0 < i < n && name[i] == '.' && forall|j: int|
            i < j < n ==> #[trigger] name[j] != '.',
    decreases n,
{
    if n > 1 && name[n - 1] != '.' {
        lemma_last_dot(name, n - 1);
    }
}

proof fn lemma_name_holds_no_separator(path: Seq<char>, n: int)
    requires
        0 <= n <= path.len(),
    ensures
        0 <= name_start(path, n) <= n,
        forall|i: int| name_start(path, n) <= i < n ==> #[trigger] path[i] != '/',
    decreases n,
{
    if n > 0 && path[n - 1] != '/' {
        lemma_name_holds_no_separator(path, n - 1);
    }
}

/// A version that is named after a file, by a moment and the extension of the file, is read as the
/// version of that moment.
pub proof fn law_version_of_a_file_reads_back(dir: Seq<char>, file: Seq<char>, millis: u64)
    ensures
        ({
            let path = joined(dir, version_name(millis as nat, path_ext(file)));
            version_at(path) == Some(VersionView { path, millis })
        }),
{
    if let Some(name) = file_name(file) {
        let core = bare(file);
        let n = name.len() as int;
        lemma_name_holds_no_separator(core, core.len() as int);
        lemma_last_dot(name, n);
        if let Some(i) = last_dot(name, n) {
            let ext = name.skip(i);
            assert forall|j: int| 1 <= j < ext.len() implies #[trigger] ext[j] != '.' && ext[j]
                != '/' by {
                assert(ext[j] == name[i + j]);
                assert(name[i + j] == core[name_start(core, core.len() as int) + i + j]);
            }
        }
    }
    law_stored_version_reads_back(dir, millis, path_ext(file));
}

/// Some version holds this content.
pub open spec fn in_history(files: Map<Seq<char>, Seq<u8>>, content: Seq<u8>) -> bool {
    exists|name: Seq<char>| #[trigger] files.dom().contains(name) && files[name] == content
}

/// No two versions hold the same content.
pub open spec fn all_differ(files: Map<Seq<char>, Seq<u8>>) -> bool {
    forall|a: Seq<char>, b: Seq<char>|
        #[trigger] files.dom().contains(a) && #[trigger] files.dom().contains(b) && files[a]
            == files[b] ==> a == b
}

/// A content that is kept under a name that is free can be found again, and so can everything that
/// was there before; and where only new contents are kept, no two versions are the same.
pub proof fn law_kept_contents_are_found_again(
    files: Map<Seq<char>, Seq<u8>>,
    taken: Seq<Seq<char>>,
    name: Seq<char>,
    current: Seq<u8>,
)
    requires
        forall|k: Seq<char>| #[trigger] files.dom().contains(k) ==> taken.contains(k),
        !in_use(taken, name),
    ensures
        in_history(files.insert(name, current), current),
        forall|c: Seq<u8>| #[trigger]
            in_history(files, c) ==> in_history(files.insert(name, current), c),
        all_differ(files) && !in_history(files, current) ==> all_differ(
            files.insert(name, current),
        ),
{
    let after = files.insert(name, current);
    assert(!files.dom().contains(name));
    assert(after.dom().contains(name));
    assert forall|c: Seq<u8>| #[trigger] in_history(files, c) implies in_history(after, c) by {
        let k = choose|k: Seq<char>| #[trigger] files.dom().contains(k) && files[k] == c;
        assert(after.dom().contains(k));
    }
    if all_differ(files) && !in_history(files, current) {
        assert forall|a: Seq<char>, b: Seq<char>|
            #[trigger] after.dom().contains(a) && #[trigger] after.dom().contains(b) && after[a]
                == after[b] implies a == b by {
            if a != name {
                assert(files.dom().contains(a));
            }
            if b != name {
                assert(files.dom().contains(b));
            }
        }
    }
}

// ---------------------------------------------------------------- keeping and going back

/// What is done with a file and its history.
#[derive(Clone, Copy, PartialEq, Eq, Debug, Structural)]
pub enum Step {
    /// The content of the file is stored as a new version.
    Keep,
    /// The wanted version is copied over the file.
    Copy,
    /// The surplus versions are deleted.
    Prune,
}

/// The steps before a file is written: its content is kept, unless some version has it already, and
/// only a history that has grown is pruned.
pub open spec fn keeping(kept: bool) -> Seq<Step> {
    if kept {
        Seq::empty()
    } else {
        seq![Step::Keep, Step::Prune]
    }
}

/// The steps of going back to a version: what the file holds is kept first, and pruning comes last.
pub open spec fn going_back(kept: bool) -> Seq<Step> {
    if kept {
        seq![Step::Copy]
    } else {
        seq![Step::Keep, Step::Copy, Step::Prune]
    }
}

/// The steps before a file is written; `kept` tells whether some version has its content.
pub fn keep_steps(kept: bool) -> (r: Vec<Step>)
    ensures
        r@ == keeping(kept),
{
    let mut steps: Vec<Step> = Vec::new();
    if !kept {
        steps.push(Step::Keep);
        steps.push(Step::Prune);
    }
    proof {
        assert(steps@ =~= keeping(kept));
    }
    steps
}

/// The steps of going back to a version; `there` tells whether the version is a file, `kept` whether
/// some version has the content of the file that is replaced.
pub fn restore_steps(version: &str, there: bool, kept: bool) -> (r: Result<Vec<Step>, String>)
    ensures
        match r {
            Ok(steps) => there && steps@ == going_back(kept),
            Err(e) => !there && e@ == "版本不存在: "@ + version@,
        },
{
    if !there {
        let mut e = "版本不存在: ".to_string();
        e.append(version);
        return Err(e);
    }
    let mut steps: Vec<Step> = Vec::new();
    if !kept {
        steps.push(Step::Keep);
    }
    steps.push(Step::Copy);
    if !kept {
        steps.push(Step::Prune);
    }
    proof {
        assert(steps@ =~= going_back(kept));
    }
    Ok(steps)
}

/// A file with its history: the contents of the versions, by their paths.
#[verifier::ext_equal]
pub struct Shelf {
    pub file: Seq<u8>,
    pub versions: Map<Seq<char>, Seq<u8>>,
}

impl Shelf {
    /// After one step: `wanted` is the version that is gone back to, `fresh` the path of a new
    /// version, and `gone` holds the paths of the surplus.
    pub open spec fn after(
        self,
        step: Step,
        wanted: Seq<char>,
        fresh: Seq<char>,
        gone: Set<Seq<char>>,
    ) -> Shelf {
        match step {
            Step::Keep => Shelf { versions: self.versions.insert(fresh, self.file), ..self },
            Step::Copy => Shelf { file: self.versions[wanted], ..self },
            Step::Prune => Shelf { versions: self.versions.remove_keys(gone), ..self },
        }
    }

    /// After the first `n` steps.
    pub open spec fn after_steps(
        self,
        steps: Seq<Step>,
        n: int,
        wanted: Seq<char>,
        fresh: Seq<char>,
        gone: Set<Seq<char>>,
    ) -> Shelf
        decreases n,
    {
        if n <= 0 {
            self
        } else {
            self.after_steps(steps, n - 1, wanted, fresh, gone).after(
                steps[n - 1],
                wanted,
                fresh,
                gone,
            )
        }
    }
}

/// Nothing is pruned before the wanted version is copied, and nothing is pruned at all unless a new
/// version was stored before.
pub proof fn law_pruning_waits(kept: bool, i: int, j: int)
    ensures
        0 <= i < j < going_back(kept).len() && going_back(kept)[j] == Step::Copy ==> going_back(
            kept,
        )[i] != Step::Prune,
        0 <= j < going_back(kept).len() && going_back(kept)[j] == Step::Prune ==> going_back(
            kept,
        ).contains(Step::Keep) && going_back(kept)[0] == Step::Keep,
        0 <= j < keeping(kept).len() && keeping(kept)[j] == Step::Prune ==> keeping(kept)[0]
            == Step::Keep,
{
    if !kept {
        assert(going_back(kept)[0] == Step::Keep);
    }
}

/// Any version can be gone back to, the oldest of a full history as well: whatever pruning deletes,
/// the file then has the content of the wanted version, and up to the moment of the copy no version
/// was deleted. What the file held before can be found again, as long as pruning spares the version
/// that was just stored; where it was kept already the history stays as it is.
pub proof fn law_any_version_can_be_gone_back_to(
    shelf: Shelf,
    kept: bool,
    wanted: Seq<char>,
    fresh: Seq<char>,
    gone: Set<Seq<char>>,
)
    requires
        shelf.versions.dom().contains(wanted),
        !shelf.versions.dom().contains(fresh),
        !gone.contains(fresh),
        kept == in_history(shelf.versions, shelf.file),
    ensures
        ({
            let steps = going_back(kept);
            let end = shelf.after_steps(steps, steps.len() as int, wanted, fresh, gone);
            &&& end.file == shelf.versions[wanted]
            &&& in_history(end.versions, shelf.file)
            &&& kept ==> end.versions == shelf.versions
            &&& forall|n: int, k: Seq<char>|
                0 <= n < steps.len() && steps[n] == Step::Copy && shelf.versions.dom().contains(k)
                    ==> (#[trigger] shelf.after_steps(
                    steps,
                    n,
                    wanted,
                    fresh,
                    gone,
                ).versions.dom().contains(k)) && shelf.after_steps(
                    steps,
                    n,
                    wanted,
                    fresh,
                    gone,
                ).versions[k] == shelf.versions[k]
        }),
{
    reveal_with_fuel(Shelf::after_steps, 4);
    let steps = going_back(kept);
    if !kept {
        let end = shelf.after_steps(steps, 3, wanted, fresh, gone);
        assert(end.versions.dom().contains(fresh));
        assert(end.versions[fresh] == shelf.file);
    }
}

/// Before a file is written its content is in the history, as long as pruning spares the version
/// that was just stored.
pub proof fn law_written_files_are_kept(
    shelf: Shelf,
    kept: bool,
    wanted: Seq<char>,
    fresh: Seq<char>,
    gone: Set<Seq<char>>,
)
    requires
        !gone.contains(fresh),
        kept == in_history(shelf.versions, shelf.file),
    ensures
        ({
            let steps = keeping(kept);
            let end = shelf.after_steps(steps, steps.len() as int, wanted, fresh, gone);
            &&& end.file == shelf.file
            &&& in_history(end.versions, shelf.file)
            &&& kept ==> end == shelf
        }),
{
    reveal_with_fuel(Shelf::after_steps, 3);
    let steps = keeping(kept);
    if !kept {
        let end = shelf.after_steps(steps, 2, wanted, fresh, gone);
        assert(end.versions.dom().contains(fresh));
        assert(end.versions[fresh] == shelf.file);
    }
}

/// The moment of a version can be read back from its name.
pub proof fn law_version_name_reads_back(millis: u64, ext: Seq<char>)
    requires
        ext.len() == 0 || (ext[0] == '.' && forall|i: int|
            1 <= i < ext.len() ==> #[trigger] ext[i] != '.'),
    ensures
        text::number_in(stem(version_name(millis as nat, ext))) == Some(millis),
{
    let p = padded(millis as nat);
    let name = p + ext;
    lemma_padded(millis as nat);
    if ext.len() == 0 {
        lemma_no_dot(p, ext, p.len() as int);
        assert(name =~= p);
    } else {
        lemma_dot_at(p, ext, name.len() as int);
        assert(name.take(p.len() as int) =~= p);
    }
    assert(stem(name) == p);
    assert(p[0] != '+');
}

/// `a` comes before `b` in the order of a dictionary.
pub open spec fn sorts_before(a: Seq<char>, b: Seq<char>) -> bool {
    exists|i: int|
        0 <= i < a.len() && i < b.len() && a.take(i) == b.take(i) && #[trigger] a[i] < #[trigger] b[i]
}

proof fn lemma_same_digits(a: Seq<char>, b: Seq<char>)
    requires
        a.len() == b.len(),
        text::digits_value(a) is Some,
        text::digits_value(a) == text::digits_value(b),
    ensures
        a == b,
    decreases a.len(),
{
    if a.len() > 0 {
        let va = text::digits_value(a.drop_last())->Some_0;
        let vb = text::digits_value(b.drop_last())->Some_0;
        let da = text::digit_value(a.last())->Some_0;
        let db = text::digit_value(b.last())->Some_0;
        assert(va == vb && da == db) by {
            assert(10 * va + da == 10 * vb + db);
        }
        lemma_same_digits(a.drop_last(), b.drop_last());
        assert(a.last() == b.last());
        assert(a =~= a.drop_last().push(a.last()));
        assert(b =~= b.drop_last().push(b.last()));
    } else {
        assert(a =~= b);
    }
}

proof fn lemma_digits_order(a: Seq<char>, b: Seq<char>)
    requires
        a.len() == b.len(),
        text::digits_value(a) is Some,
        text::digits_value(b) is Some,
        text::digits_value(a)->Some_0 < text::digits_value(b)->Some_0,
    ensures
        sorts_before(a, b),
    decreases a.len(),
{
    let x = a.drop_last();
    let y = b.drop_last();
    let n = a.len() - 1;
    let va = text::digits_value(x)->Some_0;
    let vb = text::digits_value(y)->Some_0;
    let da = text::digit_value(a.last())->Some_0;
    let db = text::digit_value(b.last())->Some_0;
    assert(10 * va + da < 10 * vb + db);
    if va < vb {
        lemma_digits_order(x, y);
        let i = choose|i: int|
            0 <= i < x.len() && i < y.len() && x.take(i) == y.take(i) && #[trigger] x[i]
                < #[trigger] y[i];
        assert(a.take(i) =~= x.take(i));
        assert(b.take(i) =~= y.take(i));
        assert(a[i] == x[i] && b[i] == y[i]);
    } else {
        assert(va == vb && da < db);
        lemma_same_digits(x, y);
        assert(a.take(n) =~= x);
        assert(b.take(n) =~= y);
        assert(a[n] == a.last() && b[n] == b.last());
        assert(a[n] < b[n]);
    }
}

proof fn lemma_decimal_len(n: nat, k: nat)
    requires
        k >= 1,
        n < vstd::arithmetic::power::pow(10, k),
    ensures
        text::decimal(n).len() <= k,
    decreases k,
{
    if k == 1 {
        vstd::arithmetic::power::lemma_pow1(10);
    } else if n >= 10 {
        vstd::arithmetic::power::lemma_pow_adds(10, 1, (k - 1) as nat);
        vstd::arithmetic::power::lemma_pow1(10);
        assert(n / 10 < vstd::arithmetic::power::pow(10, (k - 1) as nat));
        lemma_decimal_len(n / 10, (k - 1) as nat);
    }
}

/// The names of versions sort like their moments, as long as the moments have 13 digits or fewer.
pub proof fn law_names_sort_by_time(a: nat, b: nat)
    requires
        a < b,
        b < 10_000_000_000_000,
    ensures
        sorts_before(padded(a), padded(b)),
{
    assert(vstd::arithmetic::power::pow(10, 13) == 10_000_000_000_000) by {
        reveal_with_fuel(vstd::arithmetic::power::pow, 14);
    }
    lemma_decimal_len(a, 13);
    lemma_decimal_len(b, 13);
    lemma_padded(a);
    lemma_padded(b);
    lemma_digits_order(padded(a), padded(b));
}

// ---------------------------------------------------------------- paths and names, told by their parts

proof fn lemma_bare_keeps(path: Seq<char>)
    requires
        path.len() > 0,
        path.last() != '/',
        path.len() > 1 && path.last() == '.' ==> path[path.len() - 2] != '/',
    ensures
        bare(path) == path,
{
}

/// `dir` is a directory that is named without anything behind its name.
pub open spec fn is_plain_dir(dir: Seq<char>) -> bool {
    &&& dir.len() > 0
    &&& dir.last() != '/'
    &&& dir.len() > 1 && dir.last() == '.' ==> dir[dir.len() - 2] != '/'
}

/// `name` is the name of a file.
pub open spec fn is_plain_name(name: Seq<char>) -> bool {
    &&& name.len() > 0
    &&& !name.contains('/')
    &&& name != seq!['.']
    &&& name != seq!['.', '.']
}

proof fn lemma_file_in_a_directory(dir: Seq<char>, name: Seq<char>)
    requires
        is_plain_dir(dir),
        is_plain_name(name),
    ensures
        ({
            let path = dir + seq!['/'] + name;
            &&& bare(path) == path
            &&& name_start(path, path.len() as int) == dir.len() + 1
            &&& path.skip((dir.len() + 1) as int) == name
            &&& path.take((dir.len() + 1) as int) == dir.push('/')
            &&& bare(dir.push('/')) == dir
        }),
{
    let path = dir + seq!['/'] + name;
    let n = dir.len() + 1;
    assert(path.last() == name.last());
    assert(name.contains(name.last())) by {
        assert(name[name.len() - 1] == name.last());
    }
    if path.last() == '.' && path[path.len() - 2] == '/' {
        if name.len() == 1 {
            assert(name =~= seq!['.']);
        } else {
            assert(path[path.len() - 2] == name[name.len() - 2]);
            assert(name.contains(name[name.len() - 2]));
        }
    }
    assert forall|i: int| n <= i < path.len() implies #[trigger] path[i] != '/' by {
        assert(path[i] == name[i - n]);
        assert(name.contains(name[i - n]));
    }
    assert(path[n - 1] == '/');
    lemma_name_start(path, path.len() as int, n as int);
    assert(path.skip(n as int) =~= name);
    assert(path.take(n as int) =~= dir.push('/'));
    assert(dir.push('/').drop_last() =~= dir);
    lemma_bare_keeps(dir);
}

/// The history of a file in a directory stands in the same directory, under the name of the file with
/// `.versions` behind it; and the name of the file is its own.
pub proof fn law_history_stands_beside_the_file(dir: Seq<char>, name: Seq<char>)
    requires
        is_plain_dir(dir),
        is_plain_name(name),
    ensures
        file_name(dir + seq!['/'] + name) == Some(name),
        history_path(dir + seq!['/'] + name) == dir + seq!['/'] + name + ".versions"@,
        joined(dir, name) == dir + seq!['/'] + name,
{
    reveal_strlit("/");
    reveal_strlit(".");
    reveal_strlit("..");
    assert("/"@ =~= seq!['/'] && "."@ =~= seq!['.'] && ".."@ =~= seq!['.', '.']);
    lemma_file_in_a_directory(dir, name);
    let path = dir + seq!['/'] + name;
    assert(joined(dir, name + ".versions"@) =~= path + ".versions"@);
}

proof fn lemma_last_dot_at(name: Seq<char>, n: int, at: int)
    requires
        0 < at < n <= name.len(),
        name[at] == '.',
        forall|j: int| at < j < n ==> #[trigger] name[j] != '.',
    ensures
        last_dot(name, n) == Some(at),
    decreases n,
{
    if at < n - 1 {
        lemma_last_dot_at(name, n - 1, at);
    }
}

proof fn lemma_last_dot_none(name: Seq<char>, n: int)
    requires
        n <= name.len(),
        forall|j: int| 0 < j < n ==> #[trigger] name[j] != '.',
    ensures
        last_dot(name, n) is None,
    decreases n,
{
    if n > 1 {
        lemma_last_dot_none(name, n - 1);
    }
}

/// Stem and extension of a name: it is cut at its last dot, of which the extension keeps the dot. A
/// name without a dot, or with none but at its very beginning, is all stem.
pub proof fn law_stem_and_extension(base: Seq<char>, ext: Seq<char>, name: Seq<char>)
    ensures
        base.len() > 0 && !ext.contains('.') ==> {
            let whole = base + seq!['.'] + ext;
            stem(whole) == base && dotted_ext(whole) == seq!['.'] + ext
        },
        (forall|j: int| 0 < j < name.len() ==> #[trigger] name[j] != '.') ==> stem(name) == name
            && dotted_ext(name).len() == 0,
{
    if base.len() > 0 && !ext.contains('.') {
        let whole = base + seq!['.'] + ext;
        let at = base.len() as int;
        assert forall|j: int| at < j < whole.len() implies #[trigger] whole[j] != '.' by {
            assert(whole[j] == ext[j - at - 1]);
            assert(ext.contains(ext[j - at - 1]));
        }
        lemma_last_dot_at(whole, whole.len() as int, at);
        assert(whole.take(at) =~= base);
        assert(whole.skip(at) =~= seq!['.'] + ext);
    }
    if forall|j: int| 0 < j < name.len() ==> #[trigger] name[j] != '.' {
        lemma_last_dot_none(name, name.len() as int);
    }
}

/// The name of a version: the moment in decimal notation, with zeros in front up to 13 digits, and
/// then the extension.
pub proof fn law_name_of_a_version(millis: nat, ext: Seq<char>)
    ensures
        ({
            let d = text::decimal(millis);
            let name = version_name(millis, ext);
            let n = if d.len() < 13 {
                13int
            } else {
                d.len() as int
            };
            &&& name.len() == n + ext.len()
            &&& name.skip(n) == ext
            &&& name.subrange(n - d.len(), n) == d
            &&& forall|i: int| 0 <= i < n - d.len() ==> #[trigger] name[i] == '0'
        }),
{
    let d = text::decimal(millis);
    let name = version_name(millis, ext);
    let n = padded(millis).len() as int;
    assert(name.skip(n) =~= ext);
    assert(name.subrange(n - d.len(), n) =~= d);
}

/// A file is a version exactly if the stem of its name reads as a moment, and then it is the version
/// of that moment.
pub proof fn law_which_files_are_versions(dir: Seq<char>, name: Seq<char>)
    requires
        is_plain_dir(dir),
        is_plain_name(name),
    ensures
        ({
            let path = dir + seq!['/'] + name;
            match text::number_in(stem(name)) {
                Some(millis) => version_at(path) == Some(VersionView { path, millis }),
                None => version_at(path) is None,
            }
        }),
{
    law_history_stands_beside_the_file(dir, name);
}

/// The history of a file that is named without its directory, or that stands in the top directory.
pub proof fn law_history_of_a_file_without_directory(name: Seq<char>)
    requires
        is_plain_name(name),
    ensures
        file_name(name) == Some(name),
        history_path(name) == name + ".versions"@,
        file_name(seq!['/'] + name) == Some(name),
        history_path(seq!['/'] + name) == seq!['/'] + name + ".versions"@,
{
    reveal_strlit("/");
    reveal_strlit(".");
    reveal_strlit("..");
    assert("/"@ =~= seq!['/'] && "."@ =~= seq!['.'] && ".."@ =~= seq!['.', '.']);
    let path = seq!['/'] + name;
    let n = name.len() as int;
    assert(name.contains(name[n - 1]));
    assert(name[n - 1] == path.last());
    if n > 1 {
        assert(name.contains(name[n - 2]));
        assert(path[n - 1] == name[n - 2]);
    } else {
        assert(name =~= seq![name[0]]);
    }
    assert forall|i: int| 0 <= i < n implies #[trigger] name[i] != '/' by {
        assert(name.contains(name[i]));
    }
    assert forall|i: int| 1 <= i < path.len() implies #[trigger] path[i] != '/' by {
        assert(path[i] == name[i - 1]);
    }
    lemma_name_start(name, n, 0);
    lemma_name_start(path, n + 1, 1);
    assert(name.skip(0) =~= name && path.skip(1) =~= name);
    assert(name.take(0) =~= Seq::empty() && path.take(1) =~= seq!['/']);
    assert(Seq::<char>::empty() + (name + ".versions"@) =~= name + ".versions"@);
    assert(seq!['/'] + (name + ".versions"@) =~= seq!['/'] + name + ".versions"@);
}

/// Separators behind the name of a file do not count, and neither does a single dot behind one.
pub proof fn law_separators_behind_a_name(path: Seq<char>)
    requires
        path.len() > 0,
    ensures
        file_name(path.push('/')) == file_name(path),
        path_ext(path.push('/')) == path_ext(path),
        file_name(path) is Some ==> history_path(path.push('/')) == history_path(path),
        path.len() > 1 && path.last() == '/' ==> file_name(path.push('.')) == file_name(path),
{
    assert(path.push('/').drop_last() =~= path);
    assert(path.push('.').drop_last() =~= path);
}

/// The extension of a file is that of its name, wherever the file stands; a path without a name has
/// none.
pub proof fn law_extension_of_a_file(dir: Seq<char>, name: Seq<char>, path: Seq<char>)
    requires
        is_plain_dir(dir),
        is_plain_name(name),
    ensures
        path_ext(dir + seq!['/'] + name) == dotted_ext(name),
        path_ext(name) == dotted_ext(name),
        file_name(path) is None ==> path_ext(path).len() == 0,
{
    law_history_stands_beside_the_file(dir, name);
    law_history_of_a_file_without_directory(name);
}

/// A path without a name has its history inside: there is nothing that could be named beside it.
pub proof fn law_history_of_a_path_without_name(path: Seq<char>)
    requires
        file_name(path) is None,
    ensures
        path.len() > 0 && path.last() != '/' ==> history_path(path) == path + seq!['/']
            + ".versions"@,
        path.len() == 0 || path.last() == '/' ==> history_path(path) == path + ".versions"@,
{
    reveal_strlit("/");
    assert("/"@ =~= seq!['/']);
    assert(Seq::<char>::empty() + ".versions"@ =~= ".versions"@);
}

} // verus!
