//! Turning resolved bookings into per-person access-grant records.
//!
//! One grant record is a literal of the form
//! `{"<zone>",<timetable>,<open-from>,<open-until>}`. The record embeds the
//! grace window computed here: it opens `prehold` seconds before the
//! booking starts and closes `posthold` seconds after it ends. The two
//! instants are rendered in the deployment's local time, because the
//! target system reads bare timestamps as local time; the zone offset is
//! taken once per cycle, at the current instant.
//!
//! A booking is considered only while `now` is at most `posthold` past its
//! end and at least `start - prehold - sync_frequency`: anything later is
//! spent, anything earlier is left for a later cycle with fresher data.

use vstd::prelude::*;

use chrono::TimeZone;

use crate::booking::Booking;
use crate::config::{room_lookup, Config};
use crate::digits::fmt_min;
use crate::time::{render_epoch, render_epoch_x, renderable, renderable_x};

verus! {

/// `now` lies inside the booking's extended window: no later than
/// `posthold` past its end, no earlier than the polling lookahead before
/// its prehold opens.
pub open spec fn booking_live(
    start: int,
    end: int,
    now: int,
    prehold: int,
    posthold: int,
    sync: int,
) -> bool {
    now <= end + posthold && now >= start - prehold - sync
}

/// One grant record: `{"<zone>",<timetable>,<open-from>,<open-until>}` with
/// the instants rendered in local time.
pub open spec fn zone_record(
    zone: Seq<char>,
    timetable_id: int,
    open_from: int,
    open_until: int,
    offset: int,
) -> Seq<char> {
    seq!['{', '"'] + zone + seq!['"', ','] + fmt_min(timetable_id) + seq![','] + render_epoch(
        open_from,
        offset,
    ) + seq![','] + render_epoch(open_until, offset) + seq!['}']
}

/// The booking yields a record: it is live, its room is mapped to a zone,
/// and both ends of its grace window fall in the renderable years.
pub open spec fn booking_emits(b: Booking, cfg: Config, now: int, offset: int) -> bool {
    &&& booking_live(
        b.start_time as int,
        b.end_time as int,
        now,
        cfg.prehold_secs as int,
        cfg.posthold_secs as int,
        cfg.sync_frequency as int,
    )
    &&& room_lookup(cfg.rooms@, b.resource_id as int) is Some
    &&& renderable(b.start_time - cfg.prehold_secs, offset)
    &&& renderable(b.end_time + cfg.posthold_secs, offset)
}

/// The record a booking yields.
pub open spec fn booking_record(b: Booking, cfg: Config, offset: int) -> Seq<char> {
    zone_record(
        room_lookup(cfg.rooms@, b.resource_id as int).unwrap(),
        cfg.timetable_id as int,
        b.start_time - cfg.prehold_secs,
        b.end_time + cfg.posthold_secs,
        offset,
    )
}

/// The grant records transponder `t` collects over `bookings`, in booking
/// order: one per booking that yields a record and permits `t`.
pub open spec fn grant_records_for(
    t: i64,
    bookings: Seq<Booking>,
    cfg: Config,
    now: int,
    offset: int,
) -> Seq<Seq<char>>
    decreases bookings.len(),
{
    if bookings.len() == 0 {
        Seq::<Seq<char>>::empty()
    } else {
        let head = if booking_emits(bookings[0], cfg, now, offset)
            && bookings[0].permitted_transponders@.contains(t) {
            seq![booking_record(bookings[0], cfg, offset)]
        } else {
            Seq::<Seq<char>>::empty()
        };
        head + grant_records_for(t, bookings.drop_first(), cfg, now, offset)
    }
}

/// The records joined with commas.
pub open spec fn comma_join(rs: Seq<Seq<char>>) -> Seq<char>
    decreases rs.len(),
{
    if rs.len() == 0 {
        Seq::<char>::empty()
    } else if rs.len() == 1 {
        rs[0]
    } else {
        rs[0] + seq![','] + comma_join(rs.drop_first())
    }
}

/// Appending one record to a joined list appends a comma and the record.
proof fn lemma_comma_join_snoc(rs: Seq<Seq<char>>, x: Seq<char>)
    ensures
        comma_join(rs.push(x)) == if rs.len() == 0 {
            x
        } else {
            comma_join(rs) + seq![','] + x
        },
    decreases rs.len(),
{
    let p = rs.push(x);
    if rs.len() == 0 {
        assert(p.len() == 1);
        assert(p[0] == x);
    } else {
        assert(p[0] == rs[0]);
        assert(p.drop_first() =~= rs.drop_first().push(x));
        lemma_comma_join_snoc(rs.drop_first(), x);
        if rs.len() == 1 {
            assert(comma_join(p) == p[0] + seq![','] + comma_join(p.drop_first()));
            assert(comma_join(p.drop_first()) == x);
        } else {
            assert(rs[0] + seq![','] + (comma_join(rs.drop_first()) + seq![','] + x) =~= (rs[0]
                + seq![','] + comma_join(rs.drop_first())) + seq![','] + x);
        }
    }
}

/// Extending the booking list extends a transponder's records by at most
/// the new booking's record.
proof fn lemma_records_snoc(t: i64, bs: Seq<Booking>, b: Booking, cfg: Config, now: int, offset: int)
    ensures
        grant_records_for(t, bs.push(b), cfg, now, offset) == grant_records_for(
            t,
            bs,
            cfg,
            now,
            offset,
        ) + (if booking_emits(b, cfg, now, offset) && b.permitted_transponders@.contains(t) {
            seq![booking_record(b, cfg, offset)]
        } else {
            Seq::<Seq<char>>::empty()
        }),
    decreases bs.len(),
{
    let p = bs.push(b);
    if bs.len() == 0 {
        assert(p[0] == b);
        assert(p.drop_first() =~= Seq::<Booking>::empty());
        assert(grant_records_for(t, bs, cfg, now, offset) =~= Seq::<Seq<char>>::empty());
        assert(grant_records_for(t, p.drop_first(), cfg, now, offset) =~= Seq::<
            Seq<char>,
        >::empty());
        if booking_emits(b, cfg, now, offset) && b.permitted_transponders@.contains(t) {
            assert(grant_records_for(t, p, cfg, now, offset) =~= seq![
                booking_record(b, cfg, offset),
            ]);
            assert(Seq::<Seq<char>>::empty() + seq![booking_record(b, cfg, offset)] =~= seq![
                booking_record(b, cfg, offset),
            ]);
        } else {
            assert(grant_records_for(t, p, cfg, now, offset) =~= Seq::<Seq<char>>::empty());
            assert(Seq::<Seq<char>>::empty() + Seq::<Seq<char>>::empty() =~= Seq::<
                Seq<char>,
            >::empty());
        }
    } else {
        assert(p[0] == bs[0]);
        assert(p.drop_first() =~= bs.drop_first().push(b));
        lemma_records_snoc(t, bs.drop_first(), b, cfg, now, offset);
        let head = if booking_emits(bs[0], cfg, now, offset)
            && bs[0].permitted_transponders@.contains(t) {
            seq![booking_record(bs[0], cfg, offset)]
        } else {
            Seq::<Seq<char>>::empty()
        };
        let tailb = if booking_emits(b, cfg, now, offset) && b.permitted_transponders@.contains(
            t,
        ) {
            seq![booking_record(b, cfg, offset)]
        } else {
            Seq::<Seq<char>>::empty()
        };
        assert(head + (grant_records_for(t, bs.drop_first(), cfg, now, offset) + tailb) =~= (head
            + grant_records_for(t, bs.drop_first(), cfg, now, offset)) + tailb);
    }
}

/// A transponder with a record is permitted by some booking.
proof fn lemma_records_exists(t: i64, bs: Seq<Booking>, cfg: Config, now: int, offset: int)
    requires
        grant_records_for(t, bs, cfg, now, offset).len() > 0,
    ensures
        exists|i: int|
            0 <= i < bs.len() && #[trigger] bs[i].permitted_transponders@.contains(t),
    decreases bs.len(),
{
    if bs.len() == 0 {
    } else if booking_emits(bs[0], cfg, now, offset) && bs[0].permitted_transponders@.contains(
        t,
    ) {
        assert(bs[0].permitted_transponders@.contains(t));
    } else {
        lemma_records_exists(t, bs.drop_first(), cfg, now, offset);
        let i = choose|i: int|
            0 <= i < bs.drop_first().len() && #[trigger] bs.drop_first()[
                i
            ].permitted_transponders@.contains(t);
        assert(bs[i + 1].permitted_transponders@.contains(t));
    }
}

/// Append the punctuation character `c` (one of `{`, `"`, `,`, `}`).
fn push_mark(out: &mut String, c: u8)
    requires
        c == 123 || c == 34 || c == 44 || c == 125,
    ensures
        final(out)@ == old(out)@ + seq![c as char],
{
    let s: &str = if c == 123 {
        "{"
    } else if c == 34 {
        "\""
    } else if c == 44 {
        ","
    } else {
        "}"
    };
    proof {
        reveal_strlit("{");
        reveal_strlit("\"");
        reveal_strlit(",");
        reveal_strlit("}");
        assert(s@ =~= seq![c as char]);
    }
    out.append(s);
}

/// Format one grant record.
pub fn salto_single_permitted_zone_format(
    zone_ext_id: &str,
    timetable_id: u16,
    open_from: i64,
    open_until: i64,
    local_offset: i32,
) -> (r: String)
    requires
        renderable(open_from as int, local_offset as int),
        renderable(open_until as int, local_offset as int),
    ensures
        r@ == zone_record(
            zone_ext_id@,
            timetable_id as int,
            open_from as int,
            open_until as int,
            local_offset as int,
        ),
{
    let mut out = String::new();
    push_mark(&mut out, 123);
    push_mark(&mut out, 34);
    out.append(zone_ext_id);
    push_mark(&mut out, 34);
    push_mark(&mut out, 44);
    crate::digits::push_min(&mut out, timetable_id as u32);
    push_mark(&mut out, 44);
    let st = render_epoch_x(open_from, local_offset);
    out.append(st.as_str());
    push_mark(&mut out, 44);
    let en = render_epoch_x(open_until, local_offset);
    out.append(en.as_str());
    push_mark(&mut out, 125);
    proof {
        assert(out@ =~= zone_record(
            zone_ext_id@,
            timetable_id as int,
            open_from as int,
            open_until as int,
            local_offset as int,
        ));
    }
    out
}

/// All transponders any booking permits, without duplicates.
pub fn collect_transponders(bookings: &Vec<Booking>) -> (r: Vec<i64>)
    ensures
        r@.no_duplicates(),
        forall|t: i64| #[trigger]
            r@.contains(t) <==> exists|i: int|
                0 <= i < bookings@.len() && #[trigger] bookings@[
                    i
                ].permitted_transponders@.contains(t),
{
    let mut r: Vec<i64> = Vec::new();
    let n = bookings.len();
    let mut i: usize = 0;
    while i < n
        invariant
            0 <= i <= n == bookings@.len(),
            r@.no_duplicates(),
            forall|t: i64| #[trigger]
                r@.contains(t) <==> exists|k: int|
                    0 <= k < i && #[trigger] bookings@[k].permitted_transponders@.contains(t),
        decreases n - i,
    {
        let list = &bookings[i].permitted_transponders;
        let m = list.len();
        let mut j: usize = 0;
        while j < m
            invariant
                0 <= j <= m == list@.len(),
                0 <= i < n == bookings@.len(),
                list@ == bookings@[i as int].permitted_transponders@,
                r@.no_duplicates(),
                forall|t: i64| #[trigger]
                    r@.contains(t) <==> (exists|k: int|
                        0 <= k < i && #[trigger] bookings@[k].permitted_transponders@.contains(
                            t,
                        )) || (exists|l: int| 0 <= l < j && list@[l] == t),
            decreases m - j,
        {
            let x = list[j];
            if !crate::note::vec_contains(&r, x) {
                let ghost old_r = r@;
                r.push(x);
                proof {
                    assert(forall|t: i64| old_r.contains(t) ==> #[trigger] r@.contains(t)) by {
                        assert(forall|k: int|
                            0 <= k < old_r.len() ==> r@[k] == #[trigger] old_r[k]);
                    }
                    assert(r@[old_r.len() as int] == x);
                    assert(forall|t: i64| #[trigger]
                        r@.contains(t) ==> old_r.contains(t) || t == x) by {
                        assert(forall|k: int|
                            0 <= k < old_r.len() ==> r@[k] == #[trigger] old_r[k]);
                    }
                    assert(list@[j as int] == x);
                }
            } else {
                proof {
                    assert(list@[j as int] == x);
                }
            }
            j = j + 1;
        }
        proof {
            assert forall|t: i64| #[trigger] r@.contains(t) implies exists|k: int|
                0 <= k < i + 1 && #[trigger] bookings@[k].permitted_transponders@.contains(t) by {
                if exists|l: int| 0 <= l < list@.len() && #[trigger] list@[l] == t {
                    assert(bookings@[i as int].permitted_transponders@.contains(t));
                } else {
                    let k = choose|k: int|
                        0 <= k < i && #[trigger] bookings@[k].permitted_transponders@.contains(t);
                    assert(0 <= k < i + 1 && bookings@[k].permitted_transponders@.contains(t));
                }
            }
            assert forall|t: i64|
                (exists|k: int|
                    0 <= k < i + 1 && #[trigger] bookings@[k].permitted_transponders@.contains(
                        t,
                    )) implies r@.contains(t) by {
                let k = choose|k: int|
                    0 <= k < i + 1 && #[trigger] bookings@[k].permitted_transponders@.contains(t);
                if k == i {
                    let l = choose|l: int|
                        0 <= l < bookings@[k].permitted_transponders@.len() && bookings@[
                            k
                        ].permitted_transponders@[l] == t;
                    assert(list@[l] == t);
                }
            }
        }
        i = i + 1;
    }
    r
}

/// Build one transponder's comma-joined zone list, and count its records.
fn build_zone_list(cfg: &Config, bookings: &Vec<Booking>, now: i64, local_offset: i32, t: i64) -> (r:
    (String, usize))
    requires
        bookings@.len() < 1000000,
    ensures
        r.0@ == comma_join(
            grant_records_for(t, bookings@, *cfg, now as int, local_offset as int),
        ),
        r.1 == grant_records_for(t, bookings@, *cfg, now as int, local_offset as int).len(),
{
    let n = bookings.len();
    let mut out = String::new();
    let mut cnt: usize = 0;
    let mut i: usize = 0;
    proof {
        assert(bookings@.subrange(0, 0) =~= Seq::<Booking>::empty());
    }
    while i < n
        invariant
            0 <= i <= n == bookings@.len(),
            n < 1000000,
            cnt <= i,
            out@ == comma_join(
                grant_records_for(
                    t,
                    bookings@.subrange(0, i as int),
                    *cfg,
                    now as int,
                    local_offset as int,
                ),
            ),
            cnt == grant_records_for(
                t,
                bookings@.subrange(0, i as int),
                *cfg,
                now as int,
                local_offset as int,
            ).len(),
        decreases n - i,
    {
        let b = &bookings[i];
        let ghost pre = bookings@.subrange(0, i as int);
        let ghost post = bookings@.subrange(0, i + 1);
        proof {
            assert(post =~= pre.push(bookings@[i as int]));
            lemma_records_snoc(t, pre, bookings@[i as int], *cfg, now as int, local_offset as int);
        }
        let live = (now as i128) <= (b.end_time as i128) + (cfg.posthold_secs as i128) && (
        now as i128) >= (b.start_time as i128) - (cfg.prehold_secs as i128) - (
        cfg.sync_frequency as i128);
        let mut emitted = false;
        if live {
            match cfg.room_ext_id(b.resource_id) {
                Some(zone) => {
                    let of128: i128 = (b.start_time as i128) - (cfg.prehold_secs as i128);
                    let ou128: i128 = (b.end_time as i128) + (cfg.posthold_secs as i128);
                    if of128 >= (i64::MIN as i128) && of128 <= (i64::MAX as i128) && ou128 >= (
                    i64::MIN as i128) && ou128 <= (i64::MAX as i128) {
                        let of: i64 = of128 as i64;
                        let ou: i64 = ou128 as i64;
                        let in_t = crate::note::vec_contains(&b.permitted_transponders, t);
                        if renderable_x(of, local_offset) && renderable_x(ou, local_offset)
                            && in_t {
                            let rec = salto_single_permitted_zone_format(
                                zone.as_str(),
                                cfg.timetable_id,
                                of,
                                ou,
                                local_offset,
                            );
                            if cnt > 0 {
                                push_mark(&mut out, 44);
                            }
                            out.append(rec.as_str());
                            cnt = cnt + 1;
                            emitted = true;
                            proof {
                                let rs = grant_records_for(
                                    t,
                                    pre,
                                    *cfg,
                                    now as int,
                                    local_offset as int,
                                );
                                lemma_comma_join_snoc(rs, booking_record(
                                    bookings@[i as int],
                                    *cfg,
                                    local_offset as int,
                                ));
                                assert(rs.push(booking_record(
                                    bookings@[i as int],
                                    *cfg,
                                    local_offset as int,
                                )) =~= rs + seq![booking_record(
                                    bookings@[i as int],
                                    *cfg,
                                    local_offset as int,
                                )]);
                            }
                        }
                    } else {
                        proof {
                            crate::time::lemma_dby_monotone(0, 1970);
                            crate::time::lemma_dby_monotone(1970, 10000);
                            assert(!booking_emits(
                                bookings@[i as int],
                                *cfg,
                                now as int,
                                local_offset as int,
                            ));
                        }
                    }
                },
                None => {},
            }
        }
        proof {
            if !emitted {
                assert(grant_records_for(t, post, *cfg, now as int, local_offset as int) =~=
                    grant_records_for(t, pre, *cfg, now as int, local_offset as int));
            }
        }
        i = i + 1;
    }
    proof {
        assert(bookings@.subrange(0, n as int) =~= bookings@);
    }
    (out, cnt)
}

/// The shape `build_grants` promises: unique keys; each entry's zone list
/// is exactly the comma-joined records its transponder collects; every
/// transponder with at least one record has an entry.
pub open spec fn grants_shape(
    r: Seq<(i64, String)>,
    bookings: Seq<Booking>,
    cfg: Config,
    now: int,
    offset: int,
) -> bool {
    &&& forall|i: int, j: int| 0 <= i < j < r.len() ==> r[i].0 != r[j].0
    &&& forall|i: int|
        0 <= i < r.len() ==> (r[i].1@ == comma_join(
            #[trigger] grant_records_for(r[i].0, bookings, cfg, now, offset),
        ) && grant_records_for(r[i].0, bookings, cfg, now, offset).len() > 0)
    &&& forall|t: i64|
        grant_records_for(t, bookings, cfg, now, offset).len() > 0 ==> exists|i: int|
            0 <= i < r.len() && #[trigger] r[i].0 == t
}

/// Accumulate the zone lists: one entry per transponder that collects at
/// least one grant record over the bookings.
pub fn build_grants(cfg: &Config, bookings: &Vec<Booking>, now: i64, local_offset: i32) -> (r: Vec<
    (i64, String),
>)
    requires
        bookings@.len() < 1000000,
    ensures
        grants_shape(r@, bookings@, *cfg, now as int, local_offset as int),
{
    let ts_all = collect_transponders(bookings);
    let m = ts_all.len();
    let mut r: Vec<(i64, String)> = Vec::new();
    let mut k: usize = 0;
    while k < m
        invariant
            0 <= k <= m == ts_all@.len(),
            ts_all@.no_duplicates(),
            bookings@.len() < 1000000,
            forall|t: i64| #[trigger]
                ts_all@.contains(t) <==> exists|i: int|
                    0 <= i < bookings@.len() && #[trigger] bookings@[
                        i
                    ].permitted_transponders@.contains(t),
            forall|i: int, j: int| 0 <= i < j < r@.len() ==> r@[i].0 != r@[j].0,
            forall|i: int|
                0 <= i < r@.len() ==> (r@[i].1@ == comma_join(
                    #[trigger] grant_records_for(
                        r@[i].0,
                        bookings@,
                        *cfg,
                        now as int,
                        local_offset as int,
                    ),
                ) && grant_records_for(
                    r@[i].0,
                    bookings@,
                    *cfg,
                    now as int,
                    local_offset as int,
                ).len() > 0),
            forall|i: int| 0 <= i < r@.len() ==> exists|kk: int|
                0 <= kk < k && ts_all@[kk] == #[trigger] r@[i].0,
            forall|kk: int|
                0 <= kk < k && grant_records_for(
                    #[trigger] ts_all@[kk],
                    bookings@,
                    *cfg,
                    now as int,
                    local_offset as int,
                ).len() > 0 ==> exists|i: int| 0 <= i < r@.len() && r@[i].0 == ts_all@[kk],
        decreases m - k,
    {
        let t = ts_all[k];
        let (zl, cnt) = build_zone_list(cfg, bookings, now, local_offset, t);
        if cnt > 0 {
            let ghost old_r = r@;
            r.push((t, zl));
            proof {
                assert(forall|i: int| 0 <= i < old_r.len() ==> r@[i] == #[trigger] old_r[i]);
                assert(r@[old_r.len() as int].0 == t);
                assert(r@[old_r.len() as int].1 == zl);
                assert(r@[old_r.len() as int].1@ == comma_join(
                    grant_records_for(t, bookings@, *cfg, now as int, local_offset as int),
                ));
                assert forall|i: int, j: int| 0 <= i < j < r@.len() implies r@[i].0 != r@[j].0 by {
                    if j == old_r.len() {
                        let kk = choose|kk: int| 0 <= kk < k && ts_all@[kk] == old_r[i].0;
                        assert(ts_all@[k as int] == t);
                    }
                }
            }
        }
        k = k + 1;
    }
    proof {
        assert forall|t: i64|
            grant_records_for(t, bookings@, *cfg, now as int, local_offset as int).len() > 0
            implies exists|i: int| 0 <= i < r@.len() && #[trigger] r@[i].0 == t by {
            lemma_records_exists(t, bookings@, *cfg, now as int, local_offset as int);
            assert(ts_all@.contains(t));
            let kk = choose|kk: int| 0 <= kk < ts_all@.len() && ts_all@[kk] == t;
        }
    }
    r
}

/// Relies on chrono: the local zone's offset from UTC at an instant is a
/// fixed offset strictly within a day; an instant chrono cannot place is
/// treated as UTC.
#[verifier::external_body]
fn local_offset_secs(epoch: i64) -> (r: i32)
    ensures
        -86400 < r < 86400,
{
    match chrono::Local.timestamp_opt(epoch, 0) {
        chrono::LocalResult::Single(dt) => dt.offset().local_minus_utc(),
        _ => 0,
    }
}

/// Build the staging candidates for this cycle: the zone offset is taken
/// once, at `now`, and every booking's grace window is rendered with it.
pub fn build_staging_candidates(cfg: &Config, bookings: &Vec<Booking>, now: i64) -> (r: Vec<
    (i64, String),
>)
    requires
        bookings@.len() < 1000000,
    ensures
        exists|off: int|
            -86400 < off < 86400 && #[trigger] grants_shape(
                r@,
                bookings@,
                *cfg,
                now as int,
                off,
            ),
{
    let off = local_offset_secs(now);
    let r = build_grants(cfg, bookings, now, off);
    proof {
        assert(grants_shape(r@, bookings@, *cfg, now as int, off as int));
    }
    r
}

/// LAW (windowing): a booking already `posthold` past its end yields no
/// grant; one more than `prehold + sync_frequency` in the future yields no
/// grant; a live, zone-mapped, renderable booking yields exactly one grant
/// record for each transponder it permits.
pub proof fn lemma_windowing(t: i64, b: Booking, cfg: Config, now: int, offset: int)
    ensures
        now > b.end_time + cfg.posthold_secs ==> grant_records_for(
            t,
            seq![b],
            cfg,
            now,
            offset,
        ) == Seq::<Seq<char>>::empty(),
        now < b.start_time - cfg.prehold_secs - cfg.sync_frequency ==> grant_records_for(
            t,
            seq![b],
            cfg,
            now,
            offset,
        ) == Seq::<Seq<char>>::empty(),
        booking_emits(b, cfg, now, offset) && b.permitted_transponders@.contains(t)
            ==> grant_records_for(t, seq![b], cfg, now, offset) == seq![
            booking_record(b, cfg, offset),
        ],
{
    let s = seq![b];
    assert(s[0] == b);
    assert(s.drop_first() =~= Seq::<Booking>::empty());
    assert(grant_records_for(t, s.drop_first(), cfg, now, offset) =~= Seq::<Seq<char>>::empty());
    if booking_emits(b, cfg, now, offset) && b.permitted_transponders@.contains(t) {
        assert(grant_records_for(t, s, cfg, now, offset) =~= seq![booking_record(b, cfg, offset)]);
    }
    if !(booking_emits(b, cfg, now, offset) && b.permitted_transponders@.contains(t)) {
        assert(grant_records_for(t, s, cfg, now, offset) =~= Seq::<Seq<char>>::empty());
    }
}

} // verus!
