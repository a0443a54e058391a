//! Group grants embedded in a booking's free-text note.
//!
//! A note grants access to a group when it contains, separated from other
//! content by whitespace, the configured magic prefix immediately followed
//! by the group's decimal id.

use vstd::prelude::*;

use crate::digits::{i64_value, is_i64_literal, parse_i64};

verus! {

/// `c` has the Unicode `White_Space` property (the same set
/// `char::is_whitespace` recognises).
pub open spec fn is_space(c: char) -> bool {
    let u = c as u32;
    ||| u == 0x9
    ||| u == 0xA
    ||| u == 0xB
    ||| u == 0xC
    ||| u == 0xD
    ||| u == 0x20
    ||| u == 0x85
    ||| u == 0xA0
    ||| u == 0x1680
    ||| (0x2000 <= u <= 0x200A)
    ||| u == 0x2028
    ||| u == 0x2029
    ||| u == 0x202F
    ||| u == 0x205F
    ||| u == 0x3000
}

/// Whitespace test, exec mirror.
pub fn is_space_x(c: char) -> (b: bool)
    ensures
        b == is_space(c),
{
    let u = c as u32;
    u == 0x9 || u == 0xA || u == 0xB || u == 0xC || u == 0xD || u == 0x20 || u == 0x85
        || u == 0xA0 || u == 0x1680 || (0x2000 <= u && u <= 0x200A) || u == 0x2028 || u == 0x2029
        || u == 0x202F || u == 0x205F || u == 0x3000
}

/// The whitespace-separated words of `s`, read left to right with `cur` the
/// word in progress.
pub open spec fn tokens_acc(s: Seq<char>, cur: Seq<char>) -> Seq<Seq<char>>
    decreases s.len(),
{
    if s.len() == 0 {
        if cur.len() == 0 {
            Seq::<Seq<char>>::empty()
        } else {
            seq![cur]
        }
    } else if is_space(s[0]) {
        if cur.len() == 0 {
            tokens_acc(s.drop_first(), Seq::<char>::empty())
        } else {
            seq![cur] + tokens_acc(s.drop_first(), Seq::<char>::empty())
        }
    } else {
        tokens_acc(s.drop_first(), cur.push(s[0]))
    }
}

/// The whitespace-separated words of `s`.
pub open spec fn tokens_of(s: Seq<char>) -> Seq<Seq<char>> {
    tokens_acc(s, Seq::<char>::empty())
}

/// Split into whitespace-separated words.
pub fn split_ws(v: &Vec<char>) -> (r: Vec<Vec<char>>)
    ensures
        r.deep_view() == tokens_of(v@),
{
    let n = v.len();
    let mut r: Vec<Vec<char>> = Vec::new();
    let mut cur: Vec<char> = Vec::new();
    let mut i: usize = 0;
    proof {
        assert(v@.subrange(0, n as int) =~= v@);
        assert(r.deep_view() =~~= Seq::<Seq<char>>::empty());
        assert(r.deep_view() + tokens_acc(v@, cur@) =~~= tokens_acc(v@, cur@));
    }
    while i < n
        invariant
            0 <= i <= n == v@.len(),
            tokens_of(v@) == r.deep_view() + tokens_acc(v@.subrange(i as int, n as int), cur@),
        decreases n - i,
    {
        let c = v[i];
        proof {
            let rest = v@.subrange(i as int, n as int);
            assert(rest[0] == v@[i as int]);
            assert(rest.drop_first() =~= v@.subrange(i + 1, n as int));
        }
        if is_space_x(c) {
            proof {
                assert(is_space(v@[i as int]));
            }
            if cur.len() > 0 {
                let ghost old_r = r.deep_view();
                let ghost w = cur@;
                r.push(cur);
                cur = Vec::new();
                proof {
                    assert(r.deep_view() =~~= old_r + seq![w]);
                    assert(old_r + (seq![w] + tokens_acc(
                        v@.subrange(i + 1, n as int),
                        Seq::<char>::empty(),
                    )) =~= (old_r + seq![w]) + tokens_acc(
                        v@.subrange(i + 1, n as int),
                        Seq::<char>::empty(),
                    ));
                }
            } else {
                proof {
                    assert(cur@ =~= Seq::<char>::empty());
                }
            }
        } else {
            let ghost cur_old = cur@;
            cur.push(c);
            proof {
                let rest = v@.subrange(i as int, n as int);
                assert(cur@ == cur_old.push(rest[0]));
                assert(tokens_acc(rest, cur_old) == tokens_acc(
                    rest.drop_first(),
                    cur_old.push(rest[0]),
                ));
                assert(tokens_acc(rest, cur_old) == tokens_acc(
                    v@.subrange(i + 1, n as int),
                    cur@,
                ));
            }
        }
        i = i + 1;
    }
    proof {
        assert(v@.subrange(n as int, n as int) =~= Seq::<char>::empty());
    }
    if cur.len() > 0 {
        let ghost old_r = r.deep_view();
        let ghost w = cur@;
        r.push(cur);
        proof {
            assert(r.deep_view() =~~= old_r + seq![w]);
            assert(old_r + seq![w] =~~= old_r + tokens_acc(Seq::<char>::empty(), w));
        }
    }
    proof {
        assert(tokens_of(v@) =~~= r.deep_view());
    }
    r
}

/// `s` begins with `p`.
pub open spec fn starts_with(s: Seq<char>, p: Seq<char>) -> bool {
    s.len() >= p.len() && s.subrange(0, p.len() as int) == p
}

/// Prefix test, exec mirror.
pub fn has_prefix(t: &Vec<char>, p: &Vec<char>) -> (b: bool)
    ensures
        b == starts_with(t@, p@),
{
    let pn = p.len();
    if t.len() < pn {
        return false;
    }
    let mut i: usize = 0;
    while i < pn
        invariant
            0 <= i <= pn == p@.len(),
            pn <= t@.len(),
            forall|j: int| 0 <= j < i ==> t@[j] == p@[j],
        decreases pn - i,
    {
        if t[i] != p[i] {
            proof {
                assert(t@.subrange(0, pn as int)[i as int] == t@[i as int]);
            }
            return false;
        }
        i = i + 1;
    }
    proof {
        assert(t@.subrange(0, pn as int) =~= p@);
    }
    true
}

/// The group id a token grants: the token must be the magic prefix
/// immediately followed by an in-range decimal id.
pub open spec fn token_gid(t: Seq<char>, prefix: Seq<char>) -> Option<int> {
    if starts_with(t, prefix) && is_i64_literal(t.subrange(prefix.len() as int, t.len() as int)) {
        Some(i64_value(t.subrange(prefix.len() as int, t.len() as int)))
    } else {
        None
    }
}

/// The group ids granted by a list of tokens, in order.
pub open spec fn gids_of_tokens(ts: Seq<Seq<char>>, prefix: Seq<char>) -> Seq<int>
    decreases ts.len(),
{
    if ts.len() == 0 {
        Seq::<int>::empty()
    } else {
        match token_gid(ts[0], prefix) {
            Some(g) => seq![g] + gids_of_tokens(ts.drop_first(), prefix),
            None => gids_of_tokens(ts.drop_first(), prefix),
        }
    }
}

/// The group ids granted by a note.
pub open spec fn note_gids(note: Seq<char>, prefix: Seq<char>) -> Seq<int> {
    gids_of_tokens(tokens_of(note), prefix)
}

/// Find all `<magic_prefix><group-id>` words of the description and collect
/// the group ids, in order of appearance.
pub fn groups_from_description(description: &str, magic_prefix: &str) -> (r: Vec<i64>)
    ensures
        r@.map_values(|g: i64| g as int) == note_gids(description@, magic_prefix@),
{
    let v = crate::text::chars_of(description);
    let p = crate::text::chars_of(magic_prefix);
    let toks = split_ws(&v);
    let ghost ts = toks.deep_view();
    let n = toks.len();
    let mut out: Vec<i64> = Vec::new();
    proof {
        assert(ts.subrange(0, n as int) =~= ts);
    }
    let mut i: usize = 0;
    while i < n
        invariant
            0 <= i <= n == toks@.len(),
            ts == toks.deep_view(),
            p@ == magic_prefix@,
            note_gids(description@, magic_prefix@) == gids_of_tokens(ts, p@),
            gids_of_tokens(ts, p@) == out@.map_values(|g: i64| g as int) + gids_of_tokens(
                ts.subrange(i as int, n as int),
                p@,
            ),
        decreases n - i,
    {
        let t = &toks[i];
        proof {
            let rest = ts.subrange(i as int, n as int);
            assert(rest[0] == ts[i as int]);
            assert(ts[i as int] == toks@[i as int].deep_view());
            assert(ts[i as int] =~= t@);
            assert(rest.drop_first() =~= ts.subrange(i + 1, n as int));
        }
        if has_prefix(t, &p) {
            let plen = p.len();
            match parse_i64(t, plen, t.len()) {
                Some(g) => {
                    let ghost old_out = out@;
                    out.push(g);
                    proof {
                        assert(t@.subrange(plen as int, t@.len() as int) =~= ts[i as int].subrange(
                            p@.len() as int,
                            ts[i as int].len() as int,
                        ));
                        assert(token_gid(ts[i as int], p@) == Some(g as int));
                        assert(out@.map_values(|g: i64| g as int) =~= old_out.map_values(
                            |g: i64| g as int,
                        ) + seq![g as int]);
                        assert(old_out.map_values(|g: i64| g as int) + (seq![g as int]
                            + gids_of_tokens(ts.subrange(i + 1, n as int), p@)) =~= (
                        old_out.map_values(|g: i64| g as int) + seq![g as int]) + gids_of_tokens(
                            ts.subrange(i + 1, n as int),
                            p@,
                        ));
                    }
                },
                None => {
                    proof {
                        assert(t@.subrange(plen as int, t@.len() as int) =~= ts[i as int].subrange(
                            p@.len() as int,
                            ts[i as int].len() as int,
                        ));
                        assert(token_gid(ts[i as int], p@) is None);
                    }
                },
            }
        } else {
            proof {
                assert(token_gid(ts[i as int], p@) is None);
            }
        }
        i = i + 1;
    }
    proof {
        assert(ts.subrange(n as int, n as int) =~= Seq::<Seq<char>>::empty());
        assert(out@.map_values(|g: i64| g as int) =~= out@.map_values(|g: i64| g as int)
            + gids_of_tokens(ts.subrange(n as int, n as int), p@));
    }
    out
}

/// Every character of `s` is whitespace.
pub open spec fn all_space(s: Seq<char>) -> bool {
    forall|i: int| 0 <= i < s.len() ==> is_space(#[trigger] s[i])
}

/// No character of `s` is whitespace.
pub open spec fn no_space(s: Seq<char>) -> bool {
    forall|i: int| 0 <= i < s.len() ==> !is_space(#[trigger] s[i])
}

/// The words `ts` joined with the separators `seps` interleaved:
/// `seps[0] + ts[0] + seps[1] + ts[1] + ... + seps[ts.len()]`.
pub open spec fn ws_join(ts: Seq<Seq<char>>, seps: Seq<Seq<char>>) -> Seq<char>
    decreases ts.len(),
{
    if ts.len() == 0 {
        if seps.len() == 0 {
            Seq::<char>::empty()
        } else {
            seps[0]
        }
    } else {
        seps[0] + ts[0] + ws_join(ts.drop_first(), seps.drop_first())
    }
}

/// `ts` and `seps` spell a note whose words are exactly `ts`: every
/// separator is whitespace, separators between two words are non-empty, and
/// every word is non-empty and free of whitespace.
pub open spec fn joinable(ts: Seq<Seq<char>>, seps: Seq<Seq<char>>) -> bool {
    &&& seps.len() == ts.len() + 1
    &&& forall|i: int| 0 <= i < seps.len() ==> all_space(#[trigger] seps[i])
    &&& forall|i: int| 1 <= i < ts.len() ==> #[trigger] seps[i].len() >= 1
    &&& forall|i: int| 0 <= i < ts.len() ==> #[trigger] ts[i].len() >= 1 && no_space(ts[i])
}

/// Leading whitespace contributes no word.
proof fn lemma_acc_space_prefix(ws: Seq<char>, rest: Seq<char>)
    requires
        all_space(ws),
    ensures
        tokens_acc(ws + rest, Seq::<char>::empty()) == tokens_acc(rest, Seq::<char>::empty()),
    decreases ws.len(),
{
    if ws.len() == 0 {
        assert(ws + rest =~= rest);
    } else {
        let s = ws + rest;
        assert(s[0] == ws[0]);
        assert(is_space(s[0]));
        assert(s.drop_first() =~= ws.drop_first() + rest);
        assert(all_space(ws.drop_first())) by {
            assert(forall|i: int|
                0 <= i < ws.len() - 1 ==> #[trigger] ws.drop_first()[i] == ws[i + 1]);
        }
        lemma_acc_space_prefix(ws.drop_first(), rest);
    }
}

/// A whitespace-free stretch accumulates onto the word in progress.
proof fn lemma_acc_word(w: Seq<char>, rest: Seq<char>, cur: Seq<char>)
    requires
        no_space(w),
    ensures
        tokens_acc(w + rest, cur) == tokens_acc(rest, cur + w),
    decreases w.len(),
{
    if w.len() == 0 {
        assert(w + rest =~= rest);
        assert(cur + w =~= cur);
    } else {
        let s = w + rest;
        assert(s[0] == w[0]);
        assert(!is_space(s[0]));
        assert(s.drop_first() =~= w.drop_first() + rest);
        assert(no_space(w.drop_first())) by {
            assert(forall|i: int|
                0 <= i < w.len() - 1 ==> #[trigger] w.drop_first()[i] == w[i + 1]);
        }
        lemma_acc_word(w.drop_first(), rest, cur.push(w[0]));
        assert(cur.push(w[0]) + w.drop_first() =~= cur + w);
    }
}

/// Trailing whitespace flushes the word in progress and ends the note.
proof fn lemma_acc_flush(ws: Seq<char>, cur: Seq<char>)
    requires
        all_space(ws),
        cur.len() > 0,
    ensures
        tokens_acc(ws, cur) == seq![cur],
    decreases ws.len(),
{
    if ws.len() == 0 {
    } else {
        assert(is_space(ws[0]));
        assert(all_space(ws.drop_first())) by {
            assert(forall|i: int|
                0 <= i < ws.len() - 1 ==> #[trigger] ws.drop_first()[i] == ws[i + 1]);
        }
        assert(ws.drop_first() + Seq::<char>::empty() =~= ws.drop_first());
        lemma_acc_space_prefix(ws.drop_first(), Seq::<char>::empty());
        assert(seq![cur] + Seq::<Seq<char>>::empty() =~= seq![cur]);
    }
}

/// LAW: splitting a note into whitespace-separated words recovers exactly
/// the words it was written from, however much whitespace stands between
/// them.
pub proof fn lemma_tokens_of_join(ts: Seq<Seq<char>>, seps: Seq<Seq<char>>)
    requires
        joinable(ts, seps),
    ensures
        tokens_of(ws_join(ts, seps)) == ts,
    decreases ts.len(),
{
    if ts.len() == 0 {
        assert(ws_join(ts, seps) == seps[0]);
        assert(seps[0] + Seq::<char>::empty() =~= seps[0]);
        lemma_acc_space_prefix(seps[0], Seq::<char>::empty());
        assert(ts =~= Seq::<Seq<char>>::empty());
    } else {
        let rest = ws_join(ts.drop_first(), seps.drop_first());
        let j = ws_join(ts, seps);
        assert(j == seps[0] + ts[0] + rest);
        assert(j =~= seps[0] + (ts[0] + rest));
        lemma_acc_space_prefix(seps[0], ts[0] + rest);
        lemma_acc_word(ts[0], rest, Seq::<char>::empty());
        assert(Seq::<char>::empty() + ts[0] =~= ts[0]);
        if ts.len() == 1 {
            assert(rest == seps.drop_first()[0]);
            assert(seps.drop_first()[0] == seps[1]);
            lemma_acc_flush(seps[1], ts[0]);
            assert(seq![ts[0]] =~= ts);
        } else {
            assert(seps[1].len() >= 1);
            assert(rest[0] == seps[1][0]) by {
                assert(seps.drop_first()[0] == seps[1]);
                assert(ts.drop_first()[0] == ts[1]);
            }
            assert(is_space(rest[0]));
            let seps2 = seps.drop_first().update(0, seps[1].drop_first());
            assert(joinable(ts.drop_first(), seps2)) by {
                assert(forall|i: int|
                    0 <= i < seps2.len() ==> #[trigger] seps2[i] == if i == 0 {
                        seps[1].drop_first()
                    } else {
                        seps[i + 1]
                    });
                assert(all_space(seps[1].drop_first())) by {
                    assert(forall|i: int|
                        0 <= i < seps[1].len() - 1 ==> #[trigger] seps[1].drop_first()[i]
                            == seps[1][i + 1]);
                }
                assert(forall|i: int|
                    0 <= i < ts.drop_first().len() ==> #[trigger] ts.drop_first()[i] == ts[i
                        + 1]);
            }
            assert(rest.drop_first() =~= ws_join(ts.drop_first(), seps2)) by {
                assert(seps2.drop_first() =~= seps.drop_first().drop_first());
                assert(ws_join(ts.drop_first(), seps2) == seps2[0] + ts.drop_first()[0]
                    + ws_join(ts.drop_first().drop_first(), seps2.drop_first()));
                assert(rest == seps.drop_first()[0] + ts.drop_first()[0] + ws_join(
                    ts.drop_first().drop_first(),
                    seps.drop_first().drop_first(),
                ));
                assert(seps2[0] =~= seps.drop_first()[0].drop_first());
            }
            lemma_tokens_of_join(ts.drop_first(), seps2);
            assert(tokens_acc(rest, ts[0]) == seq![ts[0]] + tokens_acc(
                rest.drop_first(),
                Seq::<char>::empty(),
            ));
            assert(seq![ts[0]] + ts.drop_first() =~= ts);
        }
    }
}

/// The set of group ids a note grants.
pub open spec fn gid_set(note: Seq<char>, prefix: Seq<char>) -> Set<int> {
    note_gids(note, prefix).to_set()
}

/// A group id is granted by a token list exactly when one of its tokens
/// grants it.
pub proof fn lemma_gids_contains(ts: Seq<Seq<char>>, prefix: Seq<char>, g: int)
    ensures
        gids_of_tokens(ts, prefix).contains(g) <==> exists|i: int|
            0 <= i < ts.len() && token_gid(#[trigger] ts[i], prefix) == Some(g),
    decreases ts.len(),
{
    if ts.len() == 0 {
    } else {
        lemma_gids_contains(ts.drop_first(), prefix, g);
        assert(forall|i: int|
            0 <= i < ts.len() - 1 ==> #[trigger] ts.drop_first()[i] == ts[i + 1]);
        let tail = gids_of_tokens(ts.drop_first(), prefix);
        match token_gid(ts[0], prefix) {
            Some(g0) => {
                let whole = seq![g0] + tail;
                assert(gids_of_tokens(ts, prefix) == whole);
                if g == g0 {
                    assert(whole[0] == g);
                    assert(whole.contains(g));
                    assert(token_gid(ts[0], prefix) == Some(g));
                } else {
                    assert(forall|k: int| 0 <= k < tail.len() ==> whole[k + 1] == #[trigger] tail[k]);
                    assert(whole.contains(g) <==> tail.contains(g)) by {
                        if whole.contains(g) {
                            let k = choose|k: int| 0 <= k < whole.len() && whole[k] == g;
                            assert(k >= 1);
                            assert(tail[k - 1] == g);
                        }
                        if tail.contains(g) {
                            let k = choose|k: int| 0 <= k < tail.len() && tail[k] == g;
                            assert(whole[k + 1] == g);
                        }
                    }
                    if exists|i: int|
                        0 <= i < ts.len() && token_gid(#[trigger] ts[i], prefix) == Some(g) {
                        let i = choose|i: int|
                            0 <= i < ts.len() && token_gid(#[trigger] ts[i], prefix) == Some(g);
                        assert(i >= 1);
                        assert(ts.drop_first()[i - 1] == ts[i]);
                    }
                }
            },
            None => {
                if exists|i: int|
                    0 <= i < ts.len() && token_gid(#[trigger] ts[i], prefix) == Some(g) {
                    let i = choose|i: int|
                        0 <= i < ts.len() && token_gid(#[trigger] ts[i], prefix) == Some(g);
                    assert(i >= 1);
                    assert(ts.drop_first()[i - 1] == ts[i]);
                }
            },
        }
    }
}

/// The people a note permits: every member of every group the note grants,
/// and the booking's creator.
pub open spec fn permission_set(
    note: Seq<char>,
    prefix: Seq<char>,
    members: Map<int, Set<i64>>,
    creator: Option<i64>,
) -> Set<i64> {
    Set::new(
        |t: i64|
            (exists|g: int|
                #[trigger] gid_set(note, prefix).contains(g) && members.dom().contains(g)
                    && members[g].contains(t)) || creator == Some(t),
    )
}

/// LAW: the permission set contains every member of every granted group,
/// and the creator.
pub proof fn lemma_permission_superset(
    note: Seq<char>,
    prefix: Seq<char>,
    members: Map<int, Set<i64>>,
    creator: Option<i64>,
)
    ensures
        forall|g: int, t: i64|
            gid_set(note, prefix).contains(g) && members.dom().contains(g) && #[trigger]
            members[g].contains(t) ==> permission_set(note, prefix, members, creator).contains(t),
        creator matches Some(c) ==> permission_set(note, prefix, members, creator).contains(c),
{
}

/// LAW: the permission set does not depend on the order of a note's words,
/// nor on how much whitespace stands between them.
pub proof fn lemma_permission_invariance(
    ts1: Seq<Seq<char>>,
    seps1: Seq<Seq<char>>,
    ts2: Seq<Seq<char>>,
    seps2: Seq<Seq<char>>,
    prefix: Seq<char>,
    members: Map<int, Set<i64>>,
    creator: Option<i64>,
)
    requires
        joinable(ts1, seps1),
        joinable(ts2, seps2),
        ts1.to_multiset() == ts2.to_multiset(),
    ensures
        gid_set(ws_join(ts1, seps1), prefix) == gid_set(ws_join(ts2, seps2), prefix),
        permission_set(ws_join(ts1, seps1), prefix, members, creator) == permission_set(
            ws_join(ts2, seps2),
            prefix,
            members,
            creator,
        ),
{
    lemma_tokens_of_join(ts1, seps1);
    lemma_tokens_of_join(ts2, seps2);
    let n1 = ws_join(ts1, seps1);
    let n2 = ws_join(ts2, seps2);
    assert(gid_set(n1, prefix) =~= gid_set(n2, prefix)) by {
        ts1.to_multiset_ensures();
        ts2.to_multiset_ensures();
        assert(forall|g: int| #[trigger]
            gid_set(n1, prefix).contains(g) ==> gid_set(n2, prefix).contains(g)) by {
            assert forall|g: int| #[trigger] gid_set(n1, prefix).contains(g) implies gid_set(
                n2,
                prefix,
            ).contains(g) by {
                lemma_gids_contains(ts1, prefix, g);
                lemma_gids_contains(ts2, prefix, g);
                let i = choose|i: int|
                    0 <= i < ts1.len() && token_gid(#[trigger] ts1[i], prefix) == Some(g);
                assert(ts1.contains(ts1[i]));
                assert(ts1.to_multiset().contains(ts1[i]));
                assert(ts2.to_multiset().contains(ts1[i]));
                assert(ts2.contains(ts1[i]));
                let k = choose|k: int| 0 <= k < ts2.len() && ts2[k] == ts1[i];
                assert(token_gid(ts2[k], prefix) == Some(g));
            }
        }
        assert(forall|g: int| #[trigger]
            gid_set(n2, prefix).contains(g) ==> gid_set(n1, prefix).contains(g)) by {
            assert forall|g: int| #[trigger] gid_set(n2, prefix).contains(g) implies gid_set(
                n1,
                prefix,
            ).contains(g) by {
                lemma_gids_contains(ts1, prefix, g);
                lemma_gids_contains(ts2, prefix, g);
                let i = choose|i: int|
                    0 <= i < ts2.len() && token_gid(#[trigger] ts2[i], prefix) == Some(g);
                assert(ts2.contains(ts2[i]));
                assert(ts2.to_multiset().contains(ts2[i]));
                assert(ts1.to_multiset().contains(ts2[i]));
                assert(ts1.contains(ts2[i]));
                let k = choose|k: int| 0 <= k < ts1.len() && ts1[k] == ts2[i];
                assert(token_gid(ts1[k], prefix) == Some(g));
            }
        }
    }
    assert(permission_set(n1, prefix, members, creator) =~= permission_set(
        n2,
        prefix,
        members,
        creator,
    ));
}

/// Some list in `lists` holds `t`.
pub open spec fn in_lists(lists: Seq<Vec<i64>>, t: i64) -> bool {
    exists|i: int| 0 <= i < lists.len() && #[trigger] lists[i]@.contains(t)
}

/// Linear membership scan.
pub fn vec_contains(v: &Vec<i64>, x: i64) -> (b: bool)
    ensures
        b == v@.contains(x),
{
    let n = v.len();
    let mut i: usize = 0;
    while i < n
        invariant
            0 <= i <= n == v@.len(),
            forall|j: int| 0 <= j < i ==> v@[j] != x,
        decreases n - i,
    {
        if v[i] == x {
            return true;
        }
        i = i + 1;
    }
    false
}

/// The distinct transponders permitted by a booking: every member of every
/// fetched group-member list, and the creator's transponder when known.
pub fn permitted_transponders(member_lists: &Vec<Vec<i64>>, creator: Option<i64>) -> (r: Vec<i64>)
    ensures
        r@.no_duplicates(),
        forall|t: i64|
            #[trigger] r@.contains(t) <==> (in_lists(member_lists@, t) || creator == Some(t)),
{
    let mut r: Vec<i64> = Vec::new();
    let n = member_lists.len();
    let mut i: usize = 0;
    while i < n
        invariant
            0 <= i <= n == member_lists@.len(),
            r@.no_duplicates(),
            forall|t: i64| #[trigger]
                r@.contains(t) <==> exists|k: int|
                    0 <= k < i && #[trigger] member_lists@[k]@.contains(t),
        decreases n - i,
    {
        let list = &member_lists[i];
        let m = list.len();
        let mut j: usize = 0;
        while j < m
            invariant
                0 <= j <= m == list@.len(),
                0 <= i < n == member_lists@.len(),
                list@ == member_lists@[i as int]@,
                r@.no_duplicates(),
                forall|t: i64| #[trigger]
                    r@.contains(t) <==> (exists|k: int|
                        0 <= k < i && #[trigger] member_lists@[k]@.contains(t)) || (exists|l: int|
                        0 <= l < j && list@[l] == t),
            decreases m - j,
        {
            let x = list[j];
            if !vec_contains(&r, x) {
                let ghost old_r = r@;
                r.push(x);
                proof {
                    assert(forall|t: i64|
                        old_r.contains(t) ==> #[trigger] r@.contains(t)) by {
                        assert(forall|k: int|
                            0 <= k < old_r.len() ==> r@[k] == #[trigger] old_r[k]);
                    }
                    assert(r@[old_r.len() as int] == x);
                    assert(forall|t: i64| #[trigger]
                        r@.contains(t) ==> old_r.contains(t) || t == x) by {
                        assert(forall|k: int|
                            0 <= k < old_r.len() ==> r@[k] == #[trigger] old_r[k]);
                    }
                    assert(list@[j as int] == x);
                }
            } else {
                proof {
                    assert(list@[j as int] == x);
                }
            }
            j = j + 1;
        }
        proof {
            assert forall|t: i64| #[trigger] r@.contains(t) implies exists|k: int|
                0 <= k < i + 1 && #[trigger] member_lists@[k]@.contains(t) by {
                if exists|l: int| 0 <= l < list@.len() && #[trigger] list@[l] == t {
                    assert(member_lists@[i as int]@.contains(t));
                } else {
                    let k = choose|k: int|
                        0 <= k < i && #[trigger] member_lists@[k]@.contains(t);
                    assert(0 <= k < i + 1 && member_lists@[k]@.contains(t));
                }
            }
            assert forall|t: i64|
                (exists|k: int| 0 <= k < i + 1 && #[trigger] member_lists@[k]@.contains(t))
                implies r@.contains(t) by {
                let k = choose|k: int|
                    0 <= k < i + 1 && #[trigger] member_lists@[k]@.contains(t);
                if k == i {
                    let l = choose|l: int|
                        0 <= l < member_lists@[k]@.len() && member_lists@[k]@[l] == t;
                    assert(list@[l] == t);
                }
            }
        }
        i = i + 1;
    }
    if let Some(c) = creator {
        if !vec_contains(&r, c) {
            let ghost old_r = r@;
            r.push(c);
            proof {
                assert(forall|t: i64| old_r.contains(t) ==> #[trigger] r@.contains(t)) by {
                    assert(forall|k: int| 0 <= k < old_r.len() ==> r@[k] == #[trigger] old_r[k]);
                }
                assert(r@[old_r.len() as int] == c);
                assert(forall|t: i64| #[trigger]
                    r@.contains(t) ==> old_r.contains(t) || t == c) by {
                    assert(forall|k: int| 0 <= k < old_r.len() ==> r@[k] == #[trigger] old_r[k]);
                }
            }
        }
    }
    r
}

/// LAW: when the fetched member lists are exactly the members of the groups
/// the note grants, the transponders produced by `permitted_transponders`
/// are exactly the note's permission set.
pub proof fn lemma_resolved_set(
    note: Seq<char>,
    prefix: Seq<char>,
    members: Map<int, Set<i64>>,
    creator: Option<i64>,
    gids: Seq<i64>,
    lists: Seq<Vec<i64>>,
    r: Seq<i64>,
)
    requires
        gids.map_values(|g: i64| g as int) == note_gids(note, prefix),
        lists.len() == gids.len(),
        forall|i: int| 0 <= i < gids.len() ==> members.dom().contains(#[trigger] gids[i] as int),
        forall|i: int, t: i64|
            0 <= i < gids.len() ==> (#[trigger] lists[i]@.contains(t) <==> members[gids[i] as int]
                .contains(t)),
        forall|t: i64| #[trigger] r.contains(t) <==> (in_lists(lists, t) || creator == Some(t)),
    ensures
        r.to_set() == permission_set(note, prefix, members, creator),
{
    let ps = permission_set(note, prefix, members, creator);
    let gmap = gids.map_values(|g: i64| g as int);
    assert(r.to_set() =~= ps) by {
        assert forall|t: i64| #[trigger] r.contains(t) implies ps.contains(t) by {
            if in_lists(lists, t) {
                let i = choose|i: int| 0 <= i < lists.len() && #[trigger] lists[i]@.contains(t);
                let g = gids[i] as int;
                assert(gmap[i] == g);
                assert(note_gids(note, prefix).contains(g));
                assert(gid_set(note, prefix).contains(g));
                assert(members[g].contains(t));
            }
        }
        assert forall|t: i64| #[trigger] ps.contains(t) implies r.contains(t) by {
            if !(creator == Some(t)) {
                let g = choose|g: int|
                    #[trigger] gid_set(note, prefix).contains(g) && members.dom().contains(g)
                        && members[g].contains(t);
                assert(note_gids(note, prefix).contains(g));
                let i = choose|i: int|
                    0 <= i < note_gids(note, prefix).len() && note_gids(note, prefix)[i] == g;
                assert(gmap[i] == g);
                assert(gids[i] as int == g);
                assert(lists[i]@.contains(t));
                assert(in_lists(lists, t));
            }
        }
    }
}

/// The transponder ids on one page of a group's member listing; members
/// without a transponder id are skipped, never an error.
pub open spec fn page_tids(page: Seq<Option<i64>>) -> Seq<i64>
    decreases page.len(),
{
    if page.len() == 0 {
        Seq::<i64>::empty()
    } else {
        (match page[0] {
            Some(t) => seq![t],
            None => Seq::<i64>::empty(),
        }) + page_tids(page.drop_first())
    }
}

/// Appending a member appends at most their transponder id.
proof fn lemma_page_tids_snoc(page: Seq<Option<i64>>, m: Option<i64>)
    ensures
        page_tids(page.push(m)) == page_tids(page) + (match m {
            Some(t) => seq![t],
            None => Seq::<i64>::empty(),
        }),
    decreases page.len(),
{
    let p = page.push(m);
    if page.len() == 0 {
        assert(p[0] == m);
        assert(p.drop_first() =~= Seq::<Option<i64>>::empty());
        assert(page_tids(p.drop_first()) =~= Seq::<i64>::empty());
        assert(page_tids(page) =~= Seq::<i64>::empty());
        assert(page_tids(p) =~= page_tids(page) + (match m {
            Some(t) => seq![t],
            None => Seq::<i64>::empty(),
        }));
    } else {
        assert(p[0] == page[0]);
        assert(p.drop_first() =~= page.drop_first().push(m));
        lemma_page_tids_snoc(page.drop_first(), m);
        let head = match page[0] {
            Some(t) => seq![t],
            None => Seq::<i64>::empty(),
        };
        let tail = match m {
            Some(t) => seq![t],
            None => Seq::<i64>::empty(),
        };
        assert(head + (page_tids(page.drop_first()) + tail) =~= (head + page_tids(
            page.drop_first(),
        )) + tail);
    }
}

/// Fold one fetched page of group members into the accumulator. Returns
/// whether the page was empty, which ends the member pagination.
pub fn extend_with_member_page(acc: &mut Vec<i64>, page: &Vec<Option<i64>>) -> (done: bool)
    ensures
        done == (page@.len() == 0),
        final(acc)@ == old(acc)@ + page_tids(page@),
{
    let n = page.len();
    let mut i: usize = 0;
    proof {
        assert(page@.subrange(0, 0) =~= Seq::<Option<i64>>::empty());
        assert(old(acc)@ + page_tids(page@.subrange(0, 0)) =~= old(acc)@);
    }
    while i < n
        invariant
            0 <= i <= n == page@.len(),
            acc@ == old(acc)@ + page_tids(page@.subrange(0, i as int)),
        decreases n - i,
    {
        proof {
            let pre = page@.subrange(0, i as int);
            let post = page@.subrange(0, i + 1);
            lemma_page_tids_snoc(pre, page@[i as int]);
            assert(post =~= pre.push(page@[i as int]));
        }
        match page[i] {
            Some(t) => {
                let ghost old_a = acc@;
                acc.push(t);
                proof {
                    assert(acc@ =~= old_a + seq![t]);
                    assert(old(acc)@ + (page_tids(page@.subrange(0, i as int)) + seq![t]) =~= (
                    old(acc)@ + page_tids(page@.subrange(0, i as int))) + seq![t]);
                }
            },
            None => {
                proof {
                    assert(page_tids(page@.subrange(0, i + 1)) =~= page_tids(
                        page@.subrange(0, i as int),
                    ));
                }
            },
        }
        i = i + 1;
    }
    proof {
        assert(page@.subrange(0, n as int) =~= page@);
    }
    n == 0
}

} // verus!
