//! Lazily paginated enumeration of the vendor's user directory, and the
//! mapping from transponder ids to the vendor's own person ids.
//!
//! The directory endpoint is cursor-styled: each request carries the full
//! raw entry that ended the previous page, and an empty page ends the
//! enumeration. The state machine here owns the protocol — the buffer
//! drains before the next page is requested, the cursor is always the last
//! raw entry seen, an empty page exhausts the enumeration — while the
//! runtime does the fetching. Records without the expected shape, or with
//! a title that is not a decimal number, are skipped one by one.

use vstd::prelude::*;

use crate::digits::{i64_value, is_i64_literal, parse_i64};
use crate::text::chars_of;

verus! {

/// One resolved directory user.
pub struct SaltoUser {
    /// The vendor's own identifier for the person.
    pub ext_id: String,
    /// The transponder id, parsed out of the record's title.
    pub transponder_id: i64,
}

/// One raw directory record as the runtime hands it over: the entry's
/// serialized form, which becomes the next request's cursor, and its two
/// fields where the record had them.
pub struct RawDirectoryRecord {
    pub raw: String,
    pub ext_id: Option<String>,
    pub title: Option<String>,
}

/// A user as a plain value.
pub open spec fn user_view(u: SaltoUser) -> (Seq<char>, int) {
    (u.ext_id@, u.transponder_id as int)
}

/// The user a record names: both fields present and the title an in-range
/// decimal number.
pub open spec fn parse_user(rec: RawDirectoryRecord) -> Option<(Seq<char>, int)> {
    match (rec.ext_id, rec.title) {
        (Some(e), Some(t)) => if is_i64_literal(t@) {
            Some((e@, i64_value(t@)))
        } else {
            None
        },
        _ => None,
    }
}

/// The users of a page, in page order, skipping records that do not parse.
pub open spec fn parsed_users(page: Seq<RawDirectoryRecord>) -> Seq<(Seq<char>, int)>
    decreases page.len(),
{
    if page.len() == 0 {
        Seq::<(Seq<char>, int)>::empty()
    } else {
        (match parse_user(page[0]) {
            Some(u) => seq![u],
            None => Seq::<(Seq<char>, int)>::empty(),
        }) + parsed_users(page.drop_first())
    }
}

/// Parse one record.
pub fn parse_directory_record(rec: &RawDirectoryRecord) -> (r: Option<SaltoUser>)
    ensures
        match r {
            Some(u) => parse_user(*rec) == Some(user_view(u)),
            None => parse_user(*rec) is None,
        },
{
    match (&rec.ext_id, &rec.title) {
        (Some(e), Some(t)) => {
            let v = chars_of(t.as_str());
            proof {
                assert(v@.subrange(0, v@.len() as int) =~= v@);
            }
            match parse_i64(&v, 0, v.len()) {
                Some(x) => Some(SaltoUser { ext_id: e.clone(), transponder_id: x }),
                None => None,
            }
        },
        _ => None,
    }
}

/// The enumeration's state: the users of the current page not yet handed
/// out, the cursor for the next request, and whether an empty page has
/// ended the enumeration.
pub struct DirectoryEnumState {
    /// Parsed users of the current page, not yet handed out, in page order.
    pub buffer: Vec<SaltoUser>,
    /// The raw entry that ended the last page; `None` before the first page.
    pub cursor: Option<String>,
    /// An empty page has been seen; no further page will be requested.
    pub exhausted: bool,
}

impl DirectoryEnumState {
    /// A fresh enumeration: nothing buffered, no cursor, not exhausted.
    pub fn new() -> (s: DirectoryEnumState)
        ensures
            s.buffer@.len() == 0,
            s.cursor is None,
            !s.exhausted,
    {
        DirectoryEnumState { buffer: Vec::new(), cursor: None, exhausted: false }
    }

    /// Users are still buffered; the runtime must not fetch yet.
    pub fn has_buffered(&self) -> (b: bool)
        ensures
            b == (self.buffer@.len() > 0),
    {
        self.buffer.len() > 0
    }

    /// Hand out the next buffered user, in page order.
    pub fn next_buffered(&mut self) -> (r: Option<SaltoUser>)
        ensures
            match r {
                Some(u) => {
                    &&& old(self).buffer@.len() > 0
                    &&& u == old(self).buffer@[0]
                    &&& final(self).buffer@ == old(self).buffer@.drop_first()
                    &&& final(self).cursor == old(self).cursor
                    &&& final(self).exhausted == old(self).exhausted
                },
                None => old(self).buffer@.len() == 0 && *final(self) == *old(self),
            },
    {
        if self.buffer.len() > 0 {
            let u = self.buffer.remove(0);
            proof {
                assert(self.buffer@ =~= old(self).buffer@.drop_first());
            }
            Some(u)
        } else {
            None
        }
    }

    /// Accept the page the runtime fetched for the current cursor. Only
    /// legal once the buffer has drained and while not exhausted. An empty
    /// page ends the enumeration; otherwise the page's last raw entry
    /// becomes the cursor and its parsed users fill the buffer.
    pub fn accept_page(&mut self, page: Vec<RawDirectoryRecord>)
        requires
            old(self).buffer@.len() == 0,
            !old(self).exhausted,
        ensures
            page@.len() == 0 ==> {
                &&& final(self).exhausted
                &&& final(self).buffer@.len() == 0
                &&& final(self).cursor == old(self).cursor
            },
            page@.len() > 0 ==> {
                &&& !final(self).exhausted
                &&& final(self).cursor matches Some(c) && c@ == page@.last().raw@
                &&& final(self).buffer@.map_values(|u: SaltoUser| user_view(u)) == parsed_users(
                    page@,
                )
            },
    {
        let n = page.len();
        if n == 0 {
            self.exhausted = true;
            return ;
        }
        self.cursor = Some(page[n - 1].raw.clone());
        let mut buf: Vec<SaltoUser> = Vec::new();
        let mut i: usize = 0;
        proof {
            assert(page@.subrange(0, 0) =~= Seq::<RawDirectoryRecord>::empty());
            assert(buf@.map_values(|u: SaltoUser| user_view(u)) =~= parsed_users(
                page@.subrange(0, 0),
            ));
        }
        while i < n
            invariant
                0 <= i <= n == page@.len(),
                buf@.map_values(|u: SaltoUser| user_view(u)) == parsed_users(
                    page@.subrange(0, i as int),
                ),
            decreases n - i,
        {
            proof {
                let pre = page@.subrange(0, i as int);
                let post = page@.subrange(0, i + 1);
                lemma_parsed_users_snoc(pre, page@[i as int]);
                assert(post =~= pre.push(page@[i as int]));
            }
            match parse_directory_record(&page[i]) {
                Some(u) => {
                    let ghost old_b = buf@;
                    buf.push(u);
                    proof {
                        assert(buf@.map_values(|u: SaltoUser| user_view(u)) =~= old_b.map_values(
                            |u: SaltoUser| user_view(u),
                        ) + seq![user_view(u)]);
                    }
                },
                None => {
                    proof {
                        assert(parsed_users(page@.subrange(0, i + 1)) =~= parsed_users(
                            page@.subrange(0, i as int),
                        ));
                    }
                },
            }
            i = i + 1;
        }
        proof {
            assert(page@.subrange(0, n as int) =~= page@);
        }
        self.buffer = buf;
    }
}

/// Appending a record appends at most its parsed user.
proof fn lemma_parsed_users_snoc(page: Seq<RawDirectoryRecord>, rec: RawDirectoryRecord)
    ensures
        parsed_users(page.push(rec)) == parsed_users(page) + (match parse_user(rec) {
            Some(u) => seq![u],
            None => Seq::<(Seq<char>, int)>::empty(),
        }),
    decreases page.len(),
{
    let p = page.push(rec);
    if page.len() == 0 {
        assert(p[0] == rec);
        assert(p.drop_first() =~= Seq::<RawDirectoryRecord>::empty());
        assert(parsed_users(p.drop_first()) =~= Seq::<(Seq<char>, int)>::empty());
        assert(parsed_users(page) =~= Seq::<(Seq<char>, int)>::empty());
        assert(parsed_users(p) =~= parsed_users(page) + (match parse_user(rec) {
            Some(u) => seq![u],
            None => Seq::<(Seq<char>, int)>::empty(),
        }));
    } else {
        assert(p[0] == page[0]);
        assert(p.drop_first() =~= page.drop_first().push(rec));
        lemma_parsed_users_snoc(page.drop_first(), rec);
        let head = match parse_user(page[0]) {
            Some(u) => seq![u],
            None => Seq::<(Seq<char>, int)>::empty(),
        };
        let tail = match parse_user(rec) {
            Some(u) => seq![u],
            None => Seq::<(Seq<char>, int)>::empty(),
        };
        assert(head + (parsed_users(page.drop_first()) + tail) =~= (head + parsed_users(
            page.drop_first(),
        )) + tail);
    }
}

/// The users a fixed list of pages yields: page by page, in order, until
/// the first empty page or the end of the list.
pub open spec fn users_of_pages(pages: Seq<Seq<RawDirectoryRecord>>) -> Seq<(Seq<char>, int)>
    decreases pages.len(),
{
    if pages.len() == 0 {
        Seq::<(Seq<char>, int)>::empty()
    } else if pages[0].len() == 0 {
        Seq::<(Seq<char>, int)>::empty()
    } else {
        parsed_users(pages[0]) + users_of_pages(pages.drop_first())
    }
}

/// Run the enumeration over a fixed list of pages, as a runtime would
/// against a server: feed a page whenever the buffer drains, stop at the
/// first empty page or when the pages run out. Yields exactly the parsed
/// users of the pages before the first empty one.
pub fn users_from_pages(pages: Vec<Vec<RawDirectoryRecord>>) -> (r: Vec<SaltoUser>)
    ensures
        r@.map_values(|u: SaltoUser| user_view(u)) == users_of_pages(
            pages@.map_values(|p: Vec<RawDirectoryRecord>| p@),
        ),
{
    let ghost all = pages@.map_values(|p: Vec<RawDirectoryRecord>| p@);
    let mut remaining = pages;
    let mut st = DirectoryEnumState::new();
    let mut out: Vec<SaltoUser> = Vec::new();
    proof {
        assert(remaining@.map_values(|p: Vec<RawDirectoryRecord>| p@) =~= all);
        assert(out@.map_values(|u: SaltoUser| user_view(u)) =~= Seq::<(Seq<char>, int)>::empty());
    }
    while remaining.len() > 0 && !st.exhausted
        invariant
            st.buffer@.len() == 0,
            users_of_pages(all) == out@.map_values(|u: SaltoUser| user_view(u)) + (
            if st.exhausted {
                Seq::<(Seq<char>, int)>::empty()
            } else {
                users_of_pages(remaining@.map_values(|p: Vec<RawDirectoryRecord>| p@))
            }),
        decreases remaining@.len(),
    {
        let ghost rem = remaining@.map_values(|p: Vec<RawDirectoryRecord>| p@);
        let page = remaining.remove(0);
        proof {
            assert(rem[0] == page@);
            assert(remaining@.map_values(|p: Vec<RawDirectoryRecord>| p@) =~= rem.drop_first());
        }
        st.accept_page(page);
        let ghost before = out@.map_values(|u: SaltoUser| user_view(u));
        let ghost b0 = st.buffer@;
        let mut nxt = st.next_buffered();
        proof {
            if b0.len() > 0 {
                assert(seq![user_view(b0[0])] + b0.drop_first().map_values(
                    |u: SaltoUser| user_view(u),
                ) =~= b0.map_values(|u: SaltoUser| user_view(u)));
                assert((before + seq![user_view(b0[0])]) + b0.drop_first().map_values(
                    |u: SaltoUser| user_view(u),
                ) =~= before + (seq![user_view(b0[0])] + b0.drop_first().map_values(
                    |u: SaltoUser| user_view(u),
                )));
            } else {
                assert(b0.map_values(|u: SaltoUser| user_view(u)) =~= Seq::<
                    (Seq<char>, int),
                >::empty());
            }
            assert(before + Seq::<(Seq<char>, int)>::empty() =~= before);
        }
        while nxt.is_some()
            invariant
                out@.map_values(|u: SaltoUser| user_view(u)) + (match nxt {
                    Some(u) => seq![user_view(u)],
                    None => Seq::<(Seq<char>, int)>::empty(),
                }) + st.buffer@.map_values(|u: SaltoUser| user_view(u)) == before + (
                if page@.len() == 0 {
                    Seq::<(Seq<char>, int)>::empty()
                } else {
                    parsed_users(page@)
                }),
                nxt is None ==> st.buffer@.len() == 0,
                st.exhausted == (page@.len() == 0),
            decreases st.buffer@.len() + (if nxt is Some {
                1int
            } else {
                0int
            }),
        {
            let u = nxt.unwrap();
            let ghost old_o = out@;
            out.push(u);
            proof {
                assert(out@.map_values(|w: SaltoUser| user_view(w)) =~= old_o.map_values(
                    |w: SaltoUser| user_view(w),
                ) + seq![user_view(u)]);
            }
            let ghost b_pre = st.buffer@;
            nxt = st.next_buffered();
            proof {
                if b_pre.len() > 0 {
                    assert(seq![user_view(b_pre[0])] + b_pre.drop_first().map_values(
                        |w: SaltoUser| user_view(w),
                    ) =~= b_pre.map_values(|w: SaltoUser| user_view(w)));
                } else {
                    assert(b_pre.map_values(|w: SaltoUser| user_view(w)) =~= Seq::<
                        (Seq<char>, int),
                    >::empty());
                }
                assert((old_o.map_values(|w: SaltoUser| user_view(w)) + seq![user_view(u)])
                    + b_pre.map_values(|w: SaltoUser| user_view(w)) =~= old_o.map_values(
                    |w: SaltoUser| user_view(w),
                ) + (seq![user_view(u)] + b_pre.map_values(|w: SaltoUser| user_view(w))));
            }
        }
        proof {
            assert((out@.map_values(|w: SaltoUser| user_view(w)) + Seq::<
                (Seq<char>, int),
            >::empty()) + Seq::<(Seq<char>, int)>::empty() =~= out@.map_values(
                |w: SaltoUser| user_view(w),
            ));
            if page@.len() > 0 {
                assert(rem[0].len() > 0);
                assert(users_of_pages(rem) == parsed_users(rem[0]) + users_of_pages(
                    rem.drop_first(),
                ));
                assert((before + parsed_users(page@)) + users_of_pages(rem.drop_first()) =~=
                    before + (parsed_users(page@) + users_of_pages(rem.drop_first())));
                assert(out@.map_values(|w: SaltoUser| user_view(w)) + Seq::<
                    (Seq<char>, int),
                >::empty() =~= out@.map_values(|w: SaltoUser| user_view(w)));
            } else {
                assert(rem[0].len() == 0);
                assert(users_of_pages(rem) =~= Seq::<(Seq<char>, int)>::empty());
                assert(out@.map_values(|w: SaltoUser| user_view(w)) + Seq::<
                    (Seq<char>, int),
                >::empty() =~= out@.map_values(|w: SaltoUser| user_view(w)));
            }
            assert(st.buffer@.len() == 0);
            if page@.len() > 0 {
                assert(!st.exhausted);
                assert(out@.map_values(|w: SaltoUser| user_view(w)) == before + parsed_users(
                    page@,
                ));
                assert(users_of_pages(all) == before + users_of_pages(rem));
                assert(users_of_pages(all) == out@.map_values(|w: SaltoUser| user_view(w))
                    + users_of_pages(remaining@.map_values(|p: Vec<RawDirectoryRecord>| p@)));
            } else {
                assert(st.exhausted);
                assert(out@.map_values(|w: SaltoUser| user_view(w)) == before);
                assert(users_of_pages(all) == out@.map_values(|w: SaltoUser| user_view(w)));
            }
        }
    }
    proof {
        if !st.exhausted {
            assert(remaining@.len() == 0);
            assert(remaining@.map_values(|p: Vec<RawDirectoryRecord>| p@) =~= Seq::<
                Seq<RawDirectoryRecord>,
            >::empty());
        }
    }
    out
}

/// The ext id the directory leaves for transponder `t`: the one of the
/// last enumerated user carrying it.
pub open spec fn last_ext_for(users: Seq<SaltoUser>, t: i64) -> Option<Seq<char>>
    decreases users.len(),
{
    if users.len() == 0 {
        None
    } else if users.last().transponder_id == t {
        Some(users.last().ext_id@)
    } else {
        last_ext_for(users.drop_last(), t)
    }
}

/// Scan for the last user with this transponder.
fn last_ext_for_x(users: &Vec<SaltoUser>, t: i64) -> (r: Option<String>)
    ensures
        match r {
            Some(e) => last_ext_for(users@, t) == Some(e@),
            None => last_ext_for(users@, t) is None,
        },
{
    let n = users.len();
    let mut r: Option<String> = None;
    proof {
        assert(users@.subrange(0, 0) =~= Seq::<SaltoUser>::empty());
    }
    let mut j: usize = 0;
    while j < n
        invariant
            0 <= j <= n == users@.len(),
            match r {
                Some(e) => last_ext_for(users@.subrange(0, j as int), t) == Some(e@),
                None => last_ext_for(users@.subrange(0, j as int), t) is None,
            },
        decreases n - j,
    {
        proof {
            let pre = users@.subrange(0, j as int);
            let post = users@.subrange(0, j + 1);
            assert(post.drop_last() =~= pre);
            assert(post.last() == users@[j as int]);
        }
        if users[j].transponder_id == t {
            r = Some(users[j].ext_id.clone());
        }
        j = j + 1;
    }
    proof {
        assert(users@.subrange(0, n as int) =~= users@);
    }
    r
}

/// The input ids without duplicates, in first-appearance order.
fn dedup_ids(v: &Vec<i64>) -> (r: Vec<i64>)
    ensures
        r@.no_duplicates(),
        forall|t: i64| #[trigger] r@.contains(t) <==> v@.contains(t),
{
    let n = v.len();
    let mut r: Vec<i64> = Vec::new();
    let mut i: usize = 0;
    while i < n
        invariant
            0 <= i <= n == v@.len(),
            r@.no_duplicates(),
            forall|t: i64| #[trigger]
                r@.contains(t) <==> exists|k: int| 0 <= k < i && #[trigger] v@[k] == t,
        decreases n - i,
    {
        let x = v[i];
        if !crate::note::vec_contains(&r, x) {
            let ghost old_r = r@;
            r.push(x);
            proof {
                assert(forall|t: i64| old_r.contains(t) ==> #[trigger] r@.contains(t)) by {
                    assert(forall|k: int| 0 <= k < old_r.len() ==> r@[k] == #[trigger] old_r[k]);
                }
                assert(r@[old_r.len() as int] == x);
                assert(forall|t: i64| #[trigger]
                    r@.contains(t) ==> old_r.contains(t) || t == x) by {
                    assert(forall|k: int| 0 <= k < old_r.len() ==> r@[k] == #[trigger] old_r[k]);
                }
            }
        }
        proof {
            assert(v@[i as int] == x);
        }
        i = i + 1;
    }
    r
}

/// Map every requested transponder to its external id, when the directory
/// holds one: one pair per distinct input id, `None` where the directory
/// has no user with that transponder.
pub fn resolve_transponders(transponders: &Vec<i64>, users: &Vec<SaltoUser>) -> (r: Vec<
    (i64, Option<String>),
>)
    ensures
        forall|i: int, j: int| 0 <= i < j < r@.len() ==> #[trigger] r@[i].0 != #[trigger] r@[j].0,
        forall|t: i64|
            v_contains(transponders@, t) <==> exists|i: int|
                0 <= i < r@.len() && #[trigger] r@[i].0 == t,
        forall|i: int|
            0 <= i < r@.len() ==> match last_ext_for(users@, #[trigger] r@[i].0) {
                Some(e) => r@[i].1 matches Some(s) && s@ == e,
                None => r@[i].1 is None,
            },
{
    let keys = dedup_ids(transponders);
    let m = keys.len();
    let mut r: Vec<(i64, Option<String>)> = Vec::new();
    let mut k: usize = 0;
    while k < m
        invariant
            0 <= k <= m == keys@.len(),
            keys@.no_duplicates(),
            forall|t: i64| #[trigger] keys@.contains(t) <==> transponders@.contains(t),
            r@.len() == k,
            forall|i: int| 0 <= i < k ==> #[trigger] r@[i].0 == keys@[i],
            forall|i: int|
                0 <= i < k ==> match last_ext_for(users@, #[trigger] r@[i].0) {
                    Some(e) => r@[i].1 matches Some(s) && s@ == e,
                    None => r@[i].1 is None,
                },
        decreases m - k,
    {
        let t = keys[k];
        let e = last_ext_for_x(users, t);
        r.push((t, e));
        k = k + 1;
    }
    proof {
        assert forall|t: i64| v_contains(transponders@, t) implies exists|i: int|
            0 <= i < r@.len() && #[trigger] r@[i].0 == t by {
            assert(keys@.contains(t));
            let i = choose|i: int| 0 <= i < keys@.len() && keys@[i] == t;
            assert(r@[i].0 == t);
        }
        assert forall|t: i64|
            (exists|i: int| 0 <= i < r@.len() && #[trigger] r@[i].0 == t) implies v_contains(
            transponders@,
            t,
        ) by {
            let i = choose|i: int| 0 <= i < r@.len() && #[trigger] r@[i].0 == t;
            assert(keys@[i] == t);
            assert(keys@.contains(t));
        }
    }
    r
}

/// `s` holds `t`.
pub open spec fn v_contains(s: Seq<i64>, t: i64) -> bool {
    s.contains(t)
}

} // verus!
