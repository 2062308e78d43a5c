//! Routing of the HTTP gateway: which service a request goes to, decided
//! from its method, its path and its query.

use vstd::prelude::*;
use vstd::string::StrSliceExecFns;

use crate::protocol::{service_name, ServiceType};

verus! {

/// Whether the regular expression `pattern` matches somewhere in `text`, as
/// the `regex` crate decides it; false for a pattern that does not compile.
pub uninterp spec fn regex_match(pattern: Seq<char>, text: Seq<char>) -> bool;

/// `s` ends with `t`.
pub open spec fn ends_with(s: Seq<char>, t: Seq<char>) -> bool {
    s.len() >= t.len() && s.skip(s.len() - t.len()) == t
}

/// A lowercase ASCII letter or a digit.
pub open spec fn is_lower_alnum(c: char) -> bool {
    ('a' <= c && c <= 'z') || ('0' <= c && c <= '9')
}

/// `s` ends with "/objects/" and one or more lowercase letters and digits.
pub open spec fn objects_tail(s: Seq<char>) -> bool {
    exists|i: int|
        0 <= i && i + 9 < s.len() && #[trigger] s.subrange(i, i + 9) == "/objects/"@ && forall|j: int|
            i + 9 <= j < s.len() ==> is_lower_alnum(s[j])
}

/// Whether `pattern` matches somewhere in `text`.
///
/// Trusted: compiles `pattern` with `regex::Regex::new` and calls
/// `is_match`, which is true when the expression matches anywhere in the text
/// (false when the pattern does not compile). The contract names that result
/// and, for the patterns the gateway uses, states what the documented syntax
/// makes of them: `$` matches only at the end of the text, `[a-z0-9]+` one or
/// more of those characters, the other characters themselves.
#[verifier::external_body]
fn regex_is_match(pattern: &str, text: &str) -> (res: bool)
    ensures
        res == regex_match(pattern@, text@),
        pattern@ == "/objects/[a-z0-9]+$"@ ==> (res <==> objects_tail(text@)),
        pattern@ == "/locks$"@ ==> (res <==> ends_with(text@, "/locks"@)),
        pattern@ == "/info/refs$"@ ==> (res <==> ends_with(text@, "/info/refs"@)),
        pattern@ == "/locks/verify$"@ ==> (res <==> ends_with(text@, "/locks/verify"@)),
        pattern@ == "/unlock$"@ ==> (res <==> ends_with(text@, "/unlock"@)),
        pattern@ == "/objects/batch$"@ ==> (res <==> ends_with(text@, "/objects/batch"@)),
        pattern@ == "/git-upload-pack$"@ ==> (res <==> ends_with(text@, "/git-upload-pack"@)),
        pattern@ == "/git-receive-pack$"@ ==> (res <==> ends_with(text@, "/git-receive-pack"@)),
{
    match regex::Regex::new(pattern) {
        Ok(re) => re.is_match(text),
        Err(_) => false,
    }
}

/// `s` with every occurrence of `pat` removed, scanning from the left; `s`
/// itself when `pat` is empty.
pub open spec fn remove_all(s: Seq<char>, pat: Seq<char>) -> Seq<char>
    decreases s.len(),
{
    if s.len() == 0 {
        s
    } else if pat.len() > 0 && s.len() >= pat.len() && s.take(pat.len() as int) == pat {
        remove_all(s.skip(pat.len() as int), pat)
    } else {
        seq![s[0]] + remove_all(s.drop_first(), pat)
    }
}

/// Removes every occurrence of `pat` from `s`.
fn remove_all_exec(s: &str, pat: &str) -> (res: String)
    ensures
        res@ == remove_all(s@, pat@),
{
    let n = s.unicode_len();
    let m = pat.unicode_len();
    let p = pat.to_owned();
    let mut out = String::new();
    let mut i: usize = 0;
    assert(s@.skip(0) =~= s@);
    assert(out@ + remove_all(s@, pat@) =~= remove_all(s@, pat@));
    while i < n
        invariant
            n == s@.len(),
            m == pat@.len(),
            p@ == pat@,
            i <= n,
            out@ + remove_all(s@.skip(i as int), pat@) == remove_all(s@, pat@),
        decreases n - i,
    {
        let ghost rest = s@.skip(i as int);
        if m > 0 && n - i >= m {
            let piece = s.substring_char(i, i + m);
            assert(piece@ =~= rest.take(m as int));
            if piece.to_owned() == p {
                assert(rest.skip(m as int) =~= s@.skip(i + m));
                i = i + m;
                continue;
            }
        }
        let one = s.substring_char(i, i + 1);
        assert(one@ =~= seq![rest[0]]);
        assert(rest.drop_first() =~= s@.skip(i + 1));
        let ghost before = out@;
        out.append(one);
        assert(before + remove_all(rest, pat@) =~= out@ + remove_all(s@.skip(i + 1), pat@));
        i = i + 1;
    }
    assert(s@.skip(i as int) =~= Seq::<char>::empty());
    assert(out@ + Seq::<char>::empty() =~= out@);
    out
}

/// The repository path of a request: its path without ".git" and without
/// `git_suffix`, wherever they occur.
pub open spec fn repo_path(path: Seq<char>, git_suffix: Seq<char>) -> Seq<char> {
    remove_all(remove_all(path, ".git"@), git_suffix)
}

/// The repository path of a request with path `path`.
pub fn remove_git_suffix(path: &str, git_suffix: &str) -> (res: String)
    ensures
        res@ == repo_path(path@, git_suffix@),
{
    let without_git = remove_all_exec(path, ".git");
    remove_all_exec(without_git.as_str(), git_suffix)
}

/// The characters of `s` after its last '/', all of `s` when it has none.
pub open spec fn last_segment(s: Seq<char>) -> Seq<char>
    decreases s.len(),
{
    if s.len() == 0 {
        s
    } else if s.last() == '/' {
        Seq::empty()
    } else {
        last_segment(s.drop_last()).push(s.last())
    }
}

/// The characters of `s` between its last two '/'.
pub open spec fn second_last_segment(s: Seq<char>) -> Seq<char>
    decreases s.len(),
{
    if s.len() == 0 {
        s
    } else if s.last() == '/' {
        last_segment(s.drop_last())
    } else {
        second_last_segment(s.drop_last())
    }
}

/// Where the last '/' of the first `k` characters of `s` is, if any.
fn last_slash_before(s: &str, k: usize) -> (res: Option<usize>)
    requires
        k <= s@.len(),
    ensures
        match res {
            Some(i) => i < k && s@[i as int] == '/' && forall|j: int| i < j < k ==> s@[j] != '/',
            None => forall|j: int| 0 <= j < k ==> s@[j] != '/',
        },
{
    let mut i = k;
    while i > 0
        invariant
            i <= k <= s@.len(),
            forall|j: int| i <= j < k ==> s@[j] != '/',
        decreases i,
    {
        if s.get_char(i - 1) == '/' {
            return Some(i - 1);
        }
        i = i - 1;
    }
    None
}

proof fn lemma_last_segment(s: Seq<char>, k: int, slash: Option<int>)
    requires
        0 <= k <= s.len(),
        match slash {
            Some(i) => 0 <= i < k && s[i] == '/' && forall|j: int| i < j < k ==> s[j] != '/',
            None => forall|j: int| 0 <= j < k ==> s[j] != '/',
        },
    ensures
        last_segment(s.take(k)) == match slash {
            Some(i) => s.subrange(i + 1, k),
            None => s.take(k),
        },
    decreases k,
{
    if k > 0 {
        let t = s.take(k);
        assert(t.drop_last() =~= s.take(k - 1));
        if s[k - 1] == '/' {
            assert(slash == Some(k - 1));
            assert(s.subrange(k, k) =~= Seq::<char>::empty());
        } else {
            lemma_last_segment(s, k - 1, slash);
            match slash {
                Some(i) => {
                    assert(s.subrange(i + 1, k - 1).push(s[k - 1]) =~= s.subrange(i + 1, k));
                },
                None => {
                    assert(s.take(k - 1).push(s[k - 1]) =~= s.take(k));
                },
            }
        }
    } else {
        assert(s.take(0) =~= Seq::<char>::empty());
    }
}

/// The characters of `s` after its last '/'.
fn last_segment_exec(s: &str) -> (res: String)
    ensures
        res@ == last_segment(s@),
{
    let n = s.unicode_len();
    let slash = last_slash_before(s, n);
    proof {
        lemma_last_segment(s@, n as int, match slash {
            Some(i) => Some(i as int),
            None => None,
        });
        assert(s@.take(n as int) =~= s@);
    }
    match slash {
        Some(i) => s.substring_char(i + 1, n).to_owned(),
        None => s.to_owned(),
    }
}

proof fn lemma_second_last_segment(s: Seq<char>, k: int)
    requires
        0 <= k <= s.len(),
        forall|j: int| k <= j < s.len() ==> s[j] != '/',
    ensures
        second_last_segment(s) == second_last_segment(s.take(k)),
    decreases s.len() - k,
{
    if k < s.len() {
        let d = s.drop_last();
        assert(d.take(k) =~= s.take(k));
        assert forall|j: int| k <= j < d.len() implies d[j] != '/' by {
            assert(d[j] == s[j]);
        }
        lemma_second_last_segment(d, k);
    } else {
        assert(s.take(k) =~= s);
    }
}

/// The characters of `s` between its last two '/', when it has one.
fn second_last_segment_exec(s: &str) -> (res: String)
    requires
        exists|j: int| 0 <= j < s@.len() && s@[j] == '/',
    ensures
        res@ == second_last_segment(s@),
{
    let n = s.unicode_len();
    let last = match last_slash_before(s, n) {
        Some(i) => i,
        None => {
            assert(false);
            return String::new();
        },
    };
    let before = last_slash_before(s, last);
    proof {
        lemma_second_last_segment(s@, last + 1);
        let t = s@.take(last + 1);
        assert(t.last() == '/');
        assert(t.drop_last() =~= s@.take(last as int));
        lemma_last_segment(s@, last as int, match before {
            Some(i) => Some(i as int),
            None => None,
        });
    }
    match before {
        Some(i) => s.substring_char(i + 1, last).to_owned(),
        None => s.substring_char(0, last).to_owned(),
    }
}

} // verus!

verus! {

/// The message of a refused request.
pub open spec fn not_supported() -> Seq<char> {
    "Operation not supported"@
}

/// The message of a refused GET request.
pub open spec fn not_supported_line() -> Seq<char> {
    "Operation not supported\n"@
}

/// Where a GET request goes.
pub enum GetRoute {
    /// Download of the large file whose id is given.
    LfsDownload(String),
    /// Listing of locks.
    LfsLocks,
    /// Ref advertisement of the repository at the path, for the service.
    InfoRefs(String, ServiceType),
    /// Refused, with the message.
    Forbidden(String),
}

/// Where a POST request goes.
pub enum PostRoute {
    LfsVerifyLock,
    LfsCreateLock,
    /// Removal of the lock whose id is given.
    LfsDeleteLock(String),
    LfsBatch,
    /// Fetch from the repository at the path.
    UploadPack(String),
    /// Push to the repository at the path.
    ReceivePack(String),
    Forbidden(String),
}

/// Where a PUT request goes.
pub enum PutRoute {
    /// Upload of the large file whose id is given.
    LfsUpload(String),
    Forbidden(String),
}

/// Decides where a GET request with `path` and the query parameter
/// `service` goes: large file downloads and lock listings by their paths,
/// then a ref advertisement for the two git services; anything else is
/// refused.
pub fn get_method_router(path: &str, service: Option<String>) -> (res: GetRoute)
    requires
        !objects_tail(path@) && !ends_with(path@, "/locks"@) && ends_with(path@, "/info/refs"@)
            ==> service is Some,
    ensures
        objects_tail(path@) ==> (res matches GetRoute::LfsDownload(oid) && oid@ == last_segment(path@)),
        !objects_tail(path@) && ends_with(path@, "/locks"@) ==> res is LfsLocks,
        !objects_tail(path@) && !ends_with(path@, "/locks"@) && !ends_with(path@, "/info/refs"@)
            ==> (res matches GetRoute::Forbidden(m) && m@ == not_supported_line()),
        !objects_tail(path@) && !ends_with(path@, "/locks"@) && ends_with(path@, "/info/refs"@)
            ==> match service {
            Some(s) => if s@ == "git-upload-pack"@ || s@ == "git-receive-pack"@ {
                res matches GetRoute::InfoRefs(p, t) && p@ == repo_path(path@, "/info/refs"@)
                    && service_name(t) == s@
            } else {
                res matches GetRoute::Forbidden(m) && m@ == not_supported_line()
            },
            None => false,
        },
{
    if regex_is_match("/objects/[a-z0-9]+$", path) {
        return GetRoute::LfsDownload(last_segment_exec(path));
    } else if regex_is_match("/locks$", path) {
        return GetRoute::LfsLocks;
    }
    if !regex_is_match("/info/refs$", path) {
        return GetRoute::Forbidden(String::from_str("Operation not supported\n"));
    }
    let service_name = match service {
        Some(s) => s,
        None => {
            return GetRoute::Forbidden(String::from_str("Operation not supported\n"));
        },
    };
    let upload = String::from_str("git-upload-pack");
    let receive = String::from_str("git-receive-pack");
    if service_name == upload || service_name == receive {
        let t = ServiceType::new(service_name.as_str());
        GetRoute::InfoRefs(remove_git_suffix(path, "/info/refs"), t)
    } else {
        GetRoute::Forbidden(String::from_str("Operation not supported\n"))
    }
}

/// Decides where a POST request with `path` goes: the large file lock and
/// batch services by their paths, then the two git services; anything else
/// is refused.
pub fn post_method_router(path: &str) -> (res: PostRoute)
    ensures
        ends_with(path@, "/locks/verify"@) ==> res is LfsVerifyLock,
        !ends_with(path@, "/locks/verify"@) && ends_with(path@, "/locks"@) ==> res is LfsCreateLock,
        !ends_with(path@, "/locks/verify"@) && !ends_with(path@, "/locks"@) && ends_with(
            path@,
            "/unlock"@,
        ) ==> (res matches PostRoute::LfsDeleteLock(id) && id@ == second_last_segment(path@)),
        !ends_with(path@, "/locks/verify"@) && !ends_with(path@, "/locks"@) && !ends_with(
            path@,
            "/unlock"@,
        ) && ends_with(path@, "/objects/batch"@) ==> res is LfsBatch,
        !ends_with(path@, "/locks/verify"@) && !ends_with(path@, "/locks"@) && !ends_with(
            path@,
            "/unlock"@,
        ) && !ends_with(path@, "/objects/batch"@) ==> if ends_with(path@, "/git-upload-pack"@) {
            res matches PostRoute::UploadPack(p) && p@ == repo_path(path@, "/git-upload-pack"@)
        } else if ends_with(path@, "/git-receive-pack"@) {
            res matches PostRoute::ReceivePack(p) && p@ == repo_path(path@, "/git-receive-pack"@)
        } else {
            res matches PostRoute::Forbidden(m) && m@ == not_supported()
        },
{
    if regex_is_match("/locks/verify$", path) {
        return PostRoute::LfsVerifyLock;
    } else if regex_is_match("/locks$", path) {
        return PostRoute::LfsCreateLock;
    } else if regex_is_match("/unlock$", path) {
        proof {
            reveal_strlit("/unlock");
            let k = path@.len() - 7;
            assert(path@[k] == path@.skip(k)[0]);
        }
        return PostRoute::LfsDeleteLock(second_last_segment_exec(path));
    } else if regex_is_match("/objects/batch$", path) {
        return PostRoute::LfsBatch;
    }
    if regex_is_match("/git-upload-pack$", path) {
        PostRoute::UploadPack(remove_git_suffix(path, "/git-upload-pack"))
    } else if regex_is_match("/git-receive-pack$", path) {
        PostRoute::ReceivePack(remove_git_suffix(path, "/git-receive-pack"))
    } else {
        PostRoute::Forbidden(String::from_str("Operation not supported"))
    }
}

/// Decides where a PUT request with `path` goes: a large file upload, or
/// refused.
pub fn put_method_router(path: &str) -> (res: PutRoute)
    ensures
        objects_tail(path@) ==> (res matches PutRoute::LfsUpload(oid) && oid@ == last_segment(path@)),
        !objects_tail(path@) ==> (res matches PutRoute::Forbidden(m) && m@ == not_supported()),
{
    if regex_is_match("/objects/[a-z0-9]+$", path) {
        PutRoute::LfsUpload(last_segment_exec(path))
    } else {
        PutRoute::Forbidden(String::from_str("Operation not supported"))
    }
}

} // verus!
