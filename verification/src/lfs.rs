//! Locks of the large file storage service: listing them page by page,
//! adding and removing them. The lists are stored elsewhere; these are the
//! rules that decide what the stored list becomes and what is answered.

use vstd::prelude::*;
use vstd::utf8::*;

use crate::errors::GitLFSError;
use crate::object::metadata::{all_digits, digits_value, parse_decimal};

verus! {

/// A lock on a path: its id, the path, its owner if any, and when it was
/// taken.
#[derive(Debug)]
pub struct Lock {
    pub id: String,
    pub path: String,
    pub owner: Option<String>,
    pub locked_at: String,
}

/// What a lock holds, as characters.
pub open spec fn lock_view(l: Lock) -> (Seq<char>, Seq<char>, Option<Seq<char>>, Seq<char>) {
    (l.id@, l.path@, match l.owner {
        Some(o) => Some(o@),
        None => None,
    }, l.locked_at@)
}

/// What a list of locks holds.
pub open spec fn locks_view(s: Seq<Lock>) -> Seq<(Seq<char>, Seq<char>, Option<Seq<char>>, Seq<char>)> {
    s.map_values(|l: Lock| lock_view(l))
}

impl Lock {
    /// A copy of the lock.
    pub fn duplicate(&self) -> (res: Lock)
        ensures
            lock_view(res) == lock_view(*self),
    {
        Lock {
            id: self.id.clone(),
            path: self.path.clone(),
            owner: match &self.owner {
                Some(o) => Some(o.clone()),
                None => None,
            },
            locked_at: self.locked_at.clone(),
        }
    }
}

/// The page size that a limit parameter asks for, as `str::parse::<i64>`
/// reads it: `None` when it does not parse or is negative.
pub open spec fn page_limit(b: Seq<u8>) -> Option<nat> {
    if b.len() > 0 && b[0] == 0x2d {
        let d = b.drop_first();
        if d.len() > 0 && all_digits(d) && digits_value(d) == 0 {
            Some(0)
        } else {
            None
        }
    } else {
        let d = if b.len() > 0 && b[0] == 0x2b {
            b.drop_first()
        } else {
            b
        };
        if d.len() > 0 && all_digits(d) && digits_value(d) <= i64::MAX {
            Some(digits_value(d))
        } else {
            None
        }
    }
}

/// The locks from the first whose id is `cursor` on: all of them when the
/// cursor is empty, `None` when no lock has it.
pub open spec fn from_cursor(
    s: Seq<(Seq<char>, Seq<char>, Option<Seq<char>>, Seq<char>)>,
    cursor: Seq<char>,
) -> Option<Seq<(Seq<char>, Seq<char>, Option<Seq<char>>, Seq<char>)>> {
    if cursor.len() == 0 {
        Some(s)
    } else if exists|i: int| 0 <= i < s.len() && #[trigger] s[i].0 == cursor {
        let i = choose|i: int|
            0 <= i < s.len() && #[trigger] s[i].0 == cursor && forall|j: int| 0 <= j < i ==> s[j].0 != cursor;
        Some(s.skip(i))
    } else {
        None
    }
}

/// Whether a lock is on `path`.
pub open spec fn path_is(path: Seq<char>) -> spec_fn((Seq<char>, Seq<char>, Option<Seq<char>>, Seq<char>)) -> bool {
    |l: (Seq<char>, Seq<char>, Option<Seq<char>>, Seq<char>)| l.1 == path
}

/// The locks on `path`; all of them when the path is empty.
pub open spec fn on_path(
    s: Seq<(Seq<char>, Seq<char>, Option<Seq<char>>, Seq<char>)>,
    path: Seq<char>,
) -> Seq<(Seq<char>, Seq<char>, Option<Seq<char>>, Seq<char>)> {
    if path.len() == 0 {
        s
    } else {
        s.filter(path_is(path))
    }
}

} // verus!

verus! {

/// Reads a page size, when the limit is valid and not negative.
fn read_limit(limit: &str) -> (res: usize)
    requires
        limit@.len() > 0,
        page_limit(encode_utf8(limit@)) is Some,
    ensures
        ({
            let v = page_limit(encode_utf8(limit@))->Some_0;
            (v <= usize::MAX ==> res == v) && (v > usize::MAX ==> res == usize::MAX)
        }),
{
    let b = limit.as_bytes();
    let ghost bb = b@;
    if b[0] == 0x2d {
        return 0;
    }
    let start: usize = if b[0] == 0x2b { 1 } else { 0 };
    let digits = vstd::slice::slice_subrange(b, start, b.len());
    if start == 1 {
        assert(digits@ =~= bb.drop_first());
    } else {
        assert(digits@ =~= bb);
    }
    match parse_decimal(digits) {
        Some(v) => v,
        None => usize::MAX,
    }
}

/// The page of the locks `locks` that a listing asks for: from the lock
/// whose id is `cursor` (an error when none has it), only those on `path`,
/// and at most `limit` of them; the id of the lock after the page is
/// returned when one more follows it. An empty cursor, path or limit does
/// not narrow the list.
pub fn filter_locks(locks: &Vec<Lock>, path: &str, cursor: &str, limit: &str) -> (res: Result<
    (Vec<Lock>, String),
    GitLFSError,
>)
    requires
        limit@.len() == 0 || page_limit(encode_utf8(limit@)) is Some,
    ensures
        match from_cursor(locks_view(locks@), cursor@) {
            None => res matches Err(GitLFSError::GeneralError(m)) && m@ == ""@,
            Some(after) => {
                let filtered = on_path(after, path@);
                if limit@.len() == 0 {
                    res matches Ok((v, next)) && locks_view(v@) == filtered && next@ == ""@
                } else {
                    let want = page_limit(encode_utf8(limit@))->Some_0;
                    let size = if want < filtered.len() {
                        want
                    } else {
                        filtered.len()
                    };
                    res matches Ok((v, next)) && locks_view(v@) == filtered.take(size as int) && next@ == (
                    if size + 1 < filtered.len() {
                        filtered[size as int].0
                    } else {
                        ""@
                    })
                }
            },
        },
{
    let ghost all = locks_view(locks@);
    proof {
        reveal_strlit("");
    }
    let mut start: usize = 0;
    if !cursor.is_empty() {
        let c = cursor.to_owned();
        let mut found = false;
        while !found && start < locks.len()
            invariant
                start <= locks@.len(),
                all == locks_view(locks@),
                c@ == cursor@,
                found ==> start < locks@.len() && all[start as int].0 == cursor@,
                forall|j: int| 0 <= j < start ==> all[j].0 != cursor@,
            decreases locks@.len() - start + (if found { 0int } else { 1int }),
        {
            if locks[start].id == c {
                found = true;
            } else {
                start = start + 1;
            }
        }
        if !found {
            assert(!exists|i: int| 0 <= i < all.len() && #[trigger] all[i].0 == cursor@);
            return Err(GitLFSError::GeneralError(String::new()));
        }
        proof {
            let i = choose|i: int|
                0 <= i < all.len() && #[trigger] all[i].0 == cursor@ && forall|j: int| 0 <= j < i ==> all[j].0 != cursor@;
            if i < start {
            } else if i > start {
                assert(all[start as int].0 == cursor@);
            }
            assert(i == start);
        }
    } else {
        proof {
            assert(cursor@.len() == 0);
        }
    }
    let ghost after = all.skip(start as int);
    assert(from_cursor(all, cursor@) == Some(after));
    let p = path.to_owned();
    let mut page: Vec<Lock> = Vec::new();
    let mut i = start;
    assert(after.take(0) =~= Seq::empty());
    while i < locks.len()
        invariant
            start <= i <= locks@.len(),
            all == locks_view(locks@),
            after == all.skip(start as int),
            p@ == path@,
            locks_view(page@) == on_path(after.take(i - start), path@),
        decreases locks@.len() - i,
    {
        let ghost before = locks_view(page@);
        let ghost t = after.take(i - start + 1);
        assert(t.drop_last() =~= after.take(i - start));
        assert(t.last() == all[i as int]);
        if path.is_empty() || locks[i].path == p {
            let d = locks[i].duplicate();
            page.push(d);
            assert(locks_view(page@) =~= before.push(all[i as int]));
        }
        proof {
            if path@.len() != 0 {
                let f = path_is(path@);
                assert(all.len() == locks@.len());
                assert(t.len() == i - start + 1);
                reveal(Seq::filter);
                assert(t.filter(f) == (if f(t.last()) {
                    t.drop_last().filter(f).push(t.last())
                } else {
                    t.drop_last().filter(f)
                }));
            }
        }
        i = i + 1;
    }
    assert(after.take(i - start) =~= after);
    let ghost filtered = on_path(after, path@);
    let mut next = String::new();
    if !limit.is_empty() {
        let want = read_limit(limit);
        let size = if want < page.len() { want } else { page.len() };
        if page.len() > 0 && size < page.len() - 1 {
            next = page[size].id.clone();
        }
        let mut cut: Vec<Lock> = Vec::new();
        let mut k: usize = 0;
        while k < size
            invariant
                k <= size <= page@.len(),
                locks_view(cut@) == locks_view(page@).take(k as int),
            decreases size - k,
        {
            let d = page[k].duplicate();
            let ghost before = locks_view(cut@);
            cut.push(d);
            assert(locks_view(cut@) =~= before.push(lock_view(d)));
            assert(locks_view(page@)[k as int] == lock_view(page@[k as int]));
            assert(locks_view(cut@) =~= locks_view(page@).take(k + 1));
            k = k + 1;
        }
        return Ok((cut, next));
    }
    Ok((page, next))
}

} // verus!

verus! {

/// `a` comes no later than `b` in byte order.
pub open spec fn bytes_le(a: Seq<u8>, b: Seq<u8>) -> bool
    decreases a.len(),
{
    if a.len() == 0 {
        true
    } else if b.len() == 0 {
        false
    } else if a[0] != b[0] {
        a[0] < b[0]
    } else {
        bytes_le(a.drop_first(), b.drop_first())
    }
}

/// The key by which locks are ordered: the bytes of when they were taken.
pub open spec fn time_key(l: (Seq<char>, Seq<char>, Option<Seq<char>>, Seq<char>)) -> Seq<u8> {
    encode_utf8(l.3)
}

/// `s` with `x` placed after the last lock of `s` taken no later than it,
/// scanning from the end.
pub open spec fn insert_by_time(
    s: Seq<(Seq<char>, Seq<char>, Option<Seq<char>>, Seq<char>)>,
    x: (Seq<char>, Seq<char>, Option<Seq<char>>, Seq<char>),
) -> Seq<(Seq<char>, Seq<char>, Option<Seq<char>>, Seq<char>)>
    decreases s.len(),
{
    if s.len() == 0 {
        seq![x]
    } else if bytes_le(time_key(s.last()), time_key(x)) {
        s.push(x)
    } else {
        insert_by_time(s.drop_last(), x).push(s.last())
    }
}

/// The locks `s` in a stable order of when they were taken.
pub open spec fn sort_by_time(s: Seq<(Seq<char>, Seq<char>, Option<Seq<char>>, Seq<char>)>) -> Seq<
    (Seq<char>, Seq<char>, Option<Seq<char>>, Seq<char>),
>
    decreases s.len(),
{
    if s.len() == 0 {
        s
    } else {
        insert_by_time(sort_by_time(s.drop_last()), s.last())
    }
}

/// Compares two byte strings in byte order.
fn bytes_le_exec(a: &[u8], b: &[u8]) -> (res: bool)
    ensures
        res == bytes_le(a@, b@),
{
    let mut i: usize = 0;
    assert(a@.skip(0) =~= a@);
    assert(b@.skip(0) =~= b@);
    while i < a.len() && i < b.len()
        invariant
            i <= a@.len(),
            i <= b@.len(),
            bytes_le(a@, b@) == bytes_le(a@.skip(i as int), b@.skip(i as int)),
        decreases a@.len() - i,
    {
        if a[i] != b[i] {
            return a[i] < b[i];
        }
        assert(a@.skip(i as int).drop_first() =~= a@.skip(i + 1));
        assert(b@.skip(i as int).drop_first() =~= b@.skip(i + 1));
        i = i + 1;
    }
    i == a.len()
}

proof fn lemma_insert_at(
    s: Seq<(Seq<char>, Seq<char>, Option<Seq<char>>, Seq<char>)>,
    x: (Seq<char>, Seq<char>, Option<Seq<char>>, Seq<char>),
    j: int,
)
    requires
        0 <= j <= s.len(),
        j > 0 ==> bytes_le(time_key(s[j - 1]), time_key(x)),
        forall|k: int| j <= k < s.len() ==> !bytes_le(time_key(#[trigger] s[k]), time_key(x)),
    ensures
        insert_by_time(s, x) == s.take(j) + seq![x] + s.skip(j),
    decreases s.len(),
{
    if s.len() == 0 {
        assert(s.take(j) + seq![x] + s.skip(j) =~= seq![x]);
    } else if j == s.len() {
        assert(s.take(j) + seq![x] + s.skip(j) =~= s.push(x));
    } else {
        let d = s.drop_last();
        assert forall|k: int| j <= k < d.len() implies !bytes_le(time_key(#[trigger] d[k]), time_key(x)) by {
            assert(d[k] == s[k]);
        }
        if j > 0 {
            assert(d[j - 1] == s[j - 1]);
        }
        lemma_insert_at(d, x, j);
        assert(!bytes_le(time_key(s[s.len() - 1]), time_key(x)));
        assert(d.take(j) + seq![x] + d.skip(j) + seq![s.last()] =~= s.take(j) + seq![x] + s.skip(j));
    }
}

/// The stored locks `existing` with the locks `added`, in a stable order of
/// when they were taken.
pub fn add_locks(existing: &Vec<Lock>, added: &Vec<Lock>) -> (res: Vec<Lock>)
    ensures
        locks_view(res@) == sort_by_time(locks_view(existing@) + locks_view(added@)),
{
    let mut all: Vec<Lock> = Vec::new();
    let mut i: usize = 0;
    while i < existing.len()
        invariant
            i <= existing@.len(),
            locks_view(all@) == locks_view(existing@).take(i as int),
        decreases existing@.len() - i,
    {
        let d = existing[i].duplicate();
        let ghost before = locks_view(all@);
        all.push(d);
        assert(locks_view(all@) =~= before.push(lock_view(d)));
        assert(locks_view(existing@)[i as int] == lock_view(existing@[i as int]));
        assert(locks_view(all@) =~= locks_view(existing@).take(i + 1));
        i = i + 1;
    }
    let mut k: usize = 0;
    while k < added.len()
        invariant
            k <= added@.len(),
            locks_view(all@) == locks_view(existing@) + locks_view(added@).take(k as int),
        decreases added@.len() - k,
    {
        let d = added[k].duplicate();
        let ghost before = locks_view(all@);
        all.push(d);
        assert(locks_view(all@) =~= before.push(lock_view(d)));
        assert(locks_view(added@)[k as int] == lock_view(added@[k as int]));
        assert(locks_view(all@) =~= locks_view(existing@) + locks_view(added@).take(k + 1));
        k = k + 1;
    }
    assert(locks_view(added@).take(k as int) =~= locks_view(added@));
    let ghost whole = locks_view(all@);
    let mut out: Vec<Lock> = Vec::new();
    let mut m: usize = 0;
    assert(whole.take(0) =~= Seq::empty());
    while m < all.len()
        invariant
            m <= all@.len(),
            whole == locks_view(all@),
            locks_view(out@) == sort_by_time(whole.take(m as int)),
        decreases all@.len() - m,
    {
        let x = all[m].duplicate();
        let ghost s = locks_view(out@);
        let mut j = out.len();
        while j > 0 && !bytes_le_exec(out[j - 1].locked_at.as_str().as_bytes(), x.locked_at.as_str().as_bytes())
            invariant
                j <= out@.len(),
                s == locks_view(out@),
                forall|q: int| j <= q < s.len() ==> !bytes_le(time_key(#[trigger] s[q]), time_key(lock_view(x))),
            decreases j,
        {
            assert(s[j - 1] == lock_view(out@[j - 1]));
            j = j - 1;
        }
        proof {
            if j > 0 {
                assert(s[j - 1] == lock_view(out@[j - 1]));
            }
            lemma_insert_at(s, lock_view(x), j as int);
            assert(whole.take(m + 1).drop_last() =~= whole.take(m as int));
            assert(whole.take(m + 1).last() == lock_view(x));
        }
        out.insert(j, x);
        assert(locks_view(out@) =~= s.take(j as int) + seq![lock_view(x)] + s.skip(j as int));
        m = m + 1;
    }
    assert(whole.take(m as int) =~= whole);
    out
}

} // verus!

verus! {

/// Going through the locks `s` to delete the one with `id`: `None` when a
/// lock with that id has an owner and the deletion is not forced; else the
/// last lock with that id, if any, and the other locks that have an id.
pub open spec fn delete_scan(
    s: Seq<(Seq<char>, Seq<char>, Option<Seq<char>>, Seq<char>)>,
    id: Seq<char>,
    force: bool,
) -> Option<(Option<(Seq<char>, Seq<char>, Option<Seq<char>>, Seq<char>)>, Seq<(Seq<char>, Seq<char>, Option<Seq<char>>, Seq<char>)>)>
    decreases s.len(),
{
    if s.len() == 0 {
        Some((None, Seq::empty()))
    } else {
        match delete_scan(s.drop_last(), id, force) {
            None => None,
            Some((m, kept)) => {
                let l = s.last();
                if l.0 == id {
                    if l.2 is Some && !force {
                        None
                    } else {
                        Some((Some(l), kept))
                    }
                } else if l.0.len() > 0 {
                    Some((m, kept.push(l)))
                } else {
                    Some((m, kept))
                }
            },
        }
    }
}

/// Deletes the lock with `id` from the stored locks `locks`: the deleted
/// lock and the locks that remain, or an error when no lock has that id, the
/// id is empty, or a lock with it has an owner and the deletion is not
/// forced. Locks without an id do not remain.
pub fn delete_lock(locks: &Vec<Lock>, id: &str, force: bool) -> (res: Result<(Lock, Vec<Lock>), GitLFSError>)
    ensures
        match delete_scan(locks_view(locks@), id@, force) {
            Some((Some(l), kept)) => if l.0.len() > 0 {
                res matches Ok((d, rest)) && lock_view(d) == l && locks_view(rest@) == kept
            } else {
                res matches Err(GitLFSError::GeneralError(m)) && m@ == ""@
            },
            _ => res matches Err(GitLFSError::GeneralError(m)) && m@ == ""@,
        },
{
    proof {
        reveal_strlit("");
    }
    let ghost all = locks_view(locks@);
    let target = id.to_owned();
    let mut found: Option<Lock> = None;
    let mut kept: Vec<Lock> = Vec::new();
    let mut i: usize = 0;
    assert(all.take(0) =~= Seq::empty());
    while i < locks.len()
        invariant
            i <= locks@.len(),
            all == locks_view(locks@),
            target@ == id@,
            delete_scan(all.take(i as int), id@, force) matches Some((m, k)) && locks_view(kept@) == k
                && match m {
                Some(l) => found matches Some(f) && lock_view(f) == l,
                None => found is None,
            },
        decreases locks@.len() - i,
    {
        let l = &locks[i];
        proof {
            assert(all.take(i + 1).drop_last() =~= all.take(i as int));
            assert(all.take(i + 1).last() == lock_view(*l));
        }
        if l.id == target {
            if l.owner.is_some() && !force {
                assert(delete_scan(all.take(i + 1), id@, force) is None);
                proof {
                    lemma_delete_scan_none_prefix(all, id@, force, i + 1);
                    assert(all.take(locks@.len() as int) =~= all);
                    reveal_strlit("");
                }
                return Err(GitLFSError::GeneralError(String::new()));
            }
            found = Some(l.duplicate());
        } else if !l.id.as_str().is_empty() {
            let ghost before = locks_view(kept@);
            let d = l.duplicate();
            kept.push(d);
            assert(locks_view(kept@) =~= before.push(lock_view(d)));
        }
        i = i + 1;
    }
    assert(all.take(i as int) =~= all);
    match found {
        Some(f) => {
            if f.id.as_str().is_empty() {
                Err(GitLFSError::GeneralError(String::new()))
            } else {
                Ok((f, kept))
            }
        },
        None => Err(GitLFSError::GeneralError(String::new())),
    }
}

proof fn lemma_delete_scan_none_prefix(
    s: Seq<(Seq<char>, Seq<char>, Option<Seq<char>>, Seq<char>)>,
    id: Seq<char>,
    force: bool,
    k: int,
)
    requires
        0 <= k <= s.len(),
        delete_scan(s.take(k), id, force) is None,
    ensures
        delete_scan(s, id, force) is None,
    decreases s.len() - k,
{
    if k < s.len() {
        assert(s.take(k + 1).drop_last() =~= s.take(k));
        lemma_delete_scan_none_prefix(s, id, force, k + 1);
    } else {
        assert(s.take(k) =~= s);
    }
}

} // verus!

verus! {

/// A lock kept by a deletion of `id`: one with another, non-empty id.
pub open spec fn kept_by_delete(id: Seq<char>) -> spec_fn((Seq<char>, Seq<char>, Option<Seq<char>>, Seq<char>)) -> bool {
    |l: (Seq<char>, Seq<char>, Option<Seq<char>>, Seq<char>)| l.0 != id && l.0.len() > 0
}

/// A deletion that goes through removes exactly the locks with the id asked
/// for and those without an id: what it deletes has that id, and what remains
/// is every other lock with an id, in its order.
pub proof fn lemma_delete_removes_id(
    s: Seq<(Seq<char>, Seq<char>, Option<Seq<char>>, Seq<char>)>,
    id: Seq<char>,
    force: bool,
)
    ensures
        delete_scan(s, id, force) matches Some((m, kept)) ==> kept == s.filter(kept_by_delete(id))
            && (m matches Some(l) ==> l.0 == id && s.contains(l)) && (m is None ==> forall|i: int|
            0 <= i < s.len() ==> s[i].0 != id),
        delete_scan(s, id, force) is None ==> exists|i: int|
            0 <= i < s.len() && s[i].0 == id && s[i].2 is Some && !force,
    decreases s.len(),
{
    reveal(Seq::filter);
    if s.len() > 0 {
        let d = s.drop_last();
        lemma_delete_removes_id(d, id, force);
        let l = s.last();
        assert(s.filter(kept_by_delete(id)) == (if kept_by_delete(id)(l) {
            d.filter(kept_by_delete(id)).push(l)
        } else {
            d.filter(kept_by_delete(id))
        }));
        match delete_scan(d, id, force) {
            None => {
                let i = choose|i: int| 0 <= i < d.len() && d[i].0 == id && d[i].2 is Some && !force;
                assert(s[i] == d[i]);
            },
            Some((m, kept)) => {
                if l.0 == id && l.2 is Some && !force {
                    assert(s[s.len() - 1] == l);
                } else {
                    match m {
                        Some(x) => {
                            if !(l.0 == id) {
                                let j = choose|j: int| 0 <= j < d.len() && d[j] == x;
                                assert(s[j] == x);
                            } else {
                                assert(s[s.len() - 1] == l);
                            }
                        },
                        None => {
                            if l.0 != id {
                                assert forall|i: int| 0 <= i < s.len() implies s[i].0 != id by {
                                    if i < d.len() {
                                        assert(s[i] == d[i]);
                                    }
                                }
                            } else {
                                assert(s[s.len() - 1] == l);
                            }
                        },
                    }
                }
            },
        }
    }
}

/// `a <= b` or `b <= a` in byte order.
pub proof fn lemma_bytes_le_total(a: Seq<u8>, b: Seq<u8>)
    ensures
        bytes_le(a, b) || bytes_le(b, a),
    decreases a.len(),
{
    if a.len() > 0 && b.len() > 0 && a[0] == b[0] {
        lemma_bytes_le_total(a.drop_first(), b.drop_first());
    }
}

/// Byte order is transitive.
pub proof fn lemma_bytes_le_trans(a: Seq<u8>, b: Seq<u8>, c: Seq<u8>)
    requires
        bytes_le(a, b),
        bytes_le(b, c),
    ensures
        bytes_le(a, c),
    decreases a.len(),
{
    if a.len() > 0 && b.len() > 0 && c.len() > 0 && a[0] == b[0] && b[0] == c[0] {
        lemma_bytes_le_trans(a.drop_first(), b.drop_first(), c.drop_first());
    }
}

/// The locks `s` are in order of when they were taken.
pub open spec fn sorted_by_time(s: Seq<(Seq<char>, Seq<char>, Option<Seq<char>>, Seq<char>)>) -> bool {
    forall|i: int, j: int| 0 <= i < j < s.len() ==> bytes_le(time_key(#[trigger] s[i]), time_key(#[trigger] s[j]))
}

proof fn lemma_insert_by_time(
    s: Seq<(Seq<char>, Seq<char>, Option<Seq<char>>, Seq<char>)>,
    x: (Seq<char>, Seq<char>, Option<Seq<char>>, Seq<char>),
)
    requires
        sorted_by_time(s),
    ensures
        sorted_by_time(insert_by_time(s, x)),
        insert_by_time(s, x).to_multiset() == s.to_multiset().insert(x),
        insert_by_time(s, x).len() == s.len() + 1,
        forall|i: int| 0 <= i < insert_by_time(s, x).len() ==> (#[trigger] insert_by_time(s, x)[i] == x
            || s.contains(insert_by_time(s, x)[i])),
    decreases s.len(),
{
    broadcast use vstd::seq_lib::group_to_multiset_ensures;
    if s.len() == 0 {
        assert(seq![x].to_multiset() =~= vstd::multiset::Multiset::<(Seq<char>, Seq<char>, Option<Seq<char>>, Seq<char>)>::empty().insert(x)) by {
            assert(seq![x] =~= Seq::<(Seq<char>, Seq<char>, Option<Seq<char>>, Seq<char>)>::empty().push(x));
        }
    } else if bytes_le(time_key(s.last()), time_key(x)) {
        let r = s.push(x);
        assert forall|i: int, j: int| 0 <= i < j < r.len() implies bytes_le(time_key(#[trigger] r[i]), time_key(#[trigger] r[j])) by {
            if j == s.len() {
                if i < s.len() - 1 {
                    lemma_bytes_le_trans(time_key(s[i]), time_key(s.last()), time_key(x));
                }
            }
        }
        assert forall|i: int| 0 <= i < r.len() implies (#[trigger] r[i] == x || s.contains(r[i])) by {
            if i < s.len() {
                assert(r[i] == s[i]);
            }
        }
    } else {
        let d = s.drop_last();
        assert(sorted_by_time(d)) by {
            assert forall|i: int, j: int| 0 <= i < j < d.len() implies bytes_le(time_key(#[trigger] d[i]), time_key(#[trigger] d[j])) by {
                assert(d[i] == s[i] && d[j] == s[j]);
            }
        }
        lemma_insert_by_time(d, x);
        let t = insert_by_time(d, x);
        let r = t.push(s.last());
        lemma_bytes_le_total(time_key(s.last()), time_key(x));
        assert forall|i: int, j: int| 0 <= i < j < r.len() implies bytes_le(time_key(#[trigger] r[i]), time_key(#[trigger] r[j])) by {
            if j == t.len() {
                assert(r[j] == s.last());
                assert(r[i] == t[i]);
                if t[i] != x {
                    let k = choose|k: int| 0 <= k < d.len() && d[k] == t[i];
                    assert(s[k] == d[k]);
                    assert(bytes_le(time_key(s[k]), time_key(s[s.len() - 1])));
                }
            } else {
                assert(r[i] == t[i] && r[j] == t[j]);
            }
        }
        assert forall|i: int| 0 <= i < r.len() implies (#[trigger] r[i] == x || s.contains(r[i])) by {
            if i == t.len() {
                assert(s[s.len() - 1] == s.last());
            } else {
                assert(r[i] == t[i]);
                if t[i] != x {
                    let k = choose|k: int| 0 <= k < d.len() && d[k] == t[i];
                    assert(s[k] == d[k]);
                }
            }
        }
        assert(s =~= d.push(s.last()));
        assert(r.to_multiset() =~= s.to_multiset().insert(x));
    }
}

/// Adding locks keeps the stored list in order of when the locks were taken
/// and loses none: what `add_locks` builds is sorted and holds exactly the
/// locks it was given.
pub proof fn lemma_sort_by_time(s: Seq<(Seq<char>, Seq<char>, Option<Seq<char>>, Seq<char>)>)
    ensures
        sorted_by_time(sort_by_time(s)),
        sort_by_time(s).to_multiset() == s.to_multiset(),
    decreases s.len(),
{
    broadcast use vstd::seq_lib::group_to_multiset_ensures;
    if s.len() > 0 {
        lemma_sort_by_time(s.drop_last());
        lemma_insert_by_time(sort_by_time(s.drop_last()), s.last());
        assert(s =~= s.drop_last().push(s.last()));
    }
}

} // verus!
