//! The staging reconciler: making the vendor's intake table reflect the
//! desired entries of one cycle.
//!
//! The table is keyed by external person id. A cycle blanks the zone list
//! of every row whose id the new desired set no longer names — the row is
//! kept, never deleted — and upserts every desired entry, resetting the
//! vendor's processing and error bookkeeping so the vendor reprocesses the
//! row. The runtime performs these steps inside one transaction; this
//! module plans them and models their combined effect.

use vstd::prelude::*;

verus! {

/// One desired row handed to the reconciler: an external person id and the
/// fully encoded zone list for that person.
pub struct StagingEntry {
    pub ext_user_id: String,
    pub ext_zone_id_list: String,
}

/// One row of the intake table, with the vendor bookkeeping this system
/// writes but never otherwise interprets.
#[derive(Debug, PartialEq)]
pub struct StagingRow {
    pub ext_id: String,
    pub zone_list: String,
    /// The vendor's to-be-processed flag.
    pub needs_processing: bool,
    /// The vendor's processed-timestamp column is set.
    pub processed_stamp: bool,
    /// The vendor's error columns are set.
    pub error: bool,
}

/// The abstract state of one row.
pub struct RowModel {
    pub zone_list: Seq<char>,
    pub needs_processing: bool,
    pub processed_stamp: bool,
    pub error: bool,
}

/// The zone list each external id ends up with when the desired entries
/// are upserted in order: the last entry for an id wins.
pub open spec fn desired_map(d: Seq<StagingEntry>) -> Map<Seq<char>, Seq<char>>
    decreases d.len(),
{
    if d.len() == 0 {
        Map::<Seq<char>, Seq<char>>::empty()
    } else {
        desired_map(d.drop_last()).insert(d.last().ext_user_id@, d.last().ext_zone_id_list@)
    }
}

/// Some desired entry names this id.
pub open spec fn desired_has(d: Seq<StagingEntry>, s: Seq<char>) -> bool {
    exists|i: int| 0 <= i < d.len() && #[trigger] d[i].ext_user_id@ == s
}

/// `desired_map`'s domain is exactly the ids the entries name.
pub proof fn lemma_desired_dom(d: Seq<StagingEntry>, s: Seq<char>)
    ensures
        desired_map(d).dom().contains(s) <==> desired_has(d, s),
    decreases d.len(),
{
    if d.len() == 0 {
    } else {
        lemma_desired_dom(d.drop_last(), s);
        assert(forall|i: int|
            0 <= i < d.len() - 1 ==> #[trigger] d.drop_last()[i] == d[i]);
        if desired_map(d).dom().contains(s) {
            if d.last().ext_user_id@ == s {
                assert(d[d.len() - 1].ext_user_id@ == s);
            } else {
                let i = choose|i: int|
                    0 <= i < d.drop_last().len() && #[trigger] d.drop_last()[i].ext_user_id@ == s;
                assert(d[i].ext_user_id@ == s);
            }
        }
        if desired_has(d, s) {
            let i = choose|i: int| 0 <= i < d.len() && #[trigger] d[i].ext_user_id@ == s;
            if i < d.len() - 1 {
                assert(d.drop_last()[i].ext_user_id@ == s);
            }
        }
    }
}

/// The row state an id ends the cycle with: the desired zone list when the
/// id is desired, an empty zone list when it is stale; the vendor's
/// bookkeeping is reset either way.
pub open spec fn row_after(d: Map<Seq<char>, Seq<char>>, k: Seq<char>) -> RowModel {
    RowModel {
        zone_list: if d.dom().contains(k) {
            d[k]
        } else {
            Seq::<char>::empty()
        },
        needs_processing: true,
        processed_stamp: false,
        error: false,
    }
}

/// The table after one reconciliation cycle: its rows are the old rows and
/// the desired ids, each in the state `row_after` gives it. No row is
/// deleted.
pub open spec fn reconcile(
    table: Map<Seq<char>, RowModel>,
    d: Seq<StagingEntry>,
) -> Map<Seq<char>, RowModel> {
    Map::new(
        |k: Seq<char>| table.dom().contains(k) || desired_map(d).dom().contains(k),
        |k: Seq<char>| row_after(desired_map(d), k),
    )
}

/// LAW: running the reconciler twice with the same desired set leaves the
/// table exactly as one run leaves it.
pub proof fn lemma_reconcile_idempotent(table: Map<Seq<char>, RowModel>, d: Seq<StagingEntry>)
    ensures
        reconcile(reconcile(table, d), d) == reconcile(table, d),
{
    let once = reconcile(table, d);
    let twice = reconcile(once, d);
    assert(twice =~= once);
}

/// LAW: an id present before the cycle but absent from the desired set
/// still has a row afterwards, with an empty zone list and the processing
/// and error bookkeeping reset.
pub proof fn lemma_stale_row(table: Map<Seq<char>, RowModel>, d: Seq<StagingEntry>, k: Seq<char>)
    requires
        table.dom().contains(k),
        !desired_has(d, k),
    ensures
        reconcile(table, d).dom().contains(k),
        reconcile(table, d)[k].zone_list == Seq::<char>::empty(),
        reconcile(table, d)[k].needs_processing,
        !reconcile(table, d)[k].processed_stamp,
        !reconcile(table, d)[k].error,
{
    lemma_desired_dom(d, k);
}

/// Some row carries this id.
pub open spec fn row_in(rows: Seq<StagingRow>, s: Seq<char>) -> bool {
    exists|i: int| 0 <= i < rows.len() && #[trigger] rows[i].ext_id@ == s
}

/// The zone list the desired entries leave for `id`: the last entry that
/// names it.
pub fn desired_value_for(desired: &Vec<StagingEntry>, id: &String) -> (r: Option<String>)
    ensures
        match r {
            Some(z) => desired_map(desired@).dom().contains(id@) && desired_map(desired@)[id@]
                == z@,
            None => !desired_map(desired@).dom().contains(id@),
        },
{
    let n = desired.len();
    let mut r: Option<String> = None;
    proof {
        assert(desired@.subrange(0, 0) =~= Seq::<StagingEntry>::empty());
    }
    let mut j: usize = 0;
    while j < n
        invariant
            0 <= j <= n == desired@.len(),
            match r {
                Some(z) => desired_map(desired@.subrange(0, j as int)).dom().contains(id@)
                    && desired_map(desired@.subrange(0, j as int))[id@] == z@,
                None => !desired_map(desired@.subrange(0, j as int)).dom().contains(id@),
            },
        decreases n - j,
    {
        proof {
            let pre = desired@.subrange(0, j as int);
            let post = desired@.subrange(0, j + 1);
            assert(post.drop_last() =~= pre);
            assert(post.last() == desired@[j as int]);
        }
        if desired[j].ext_user_id.eq(id) {
            r = Some(desired[j].ext_zone_id_list.clone());
        }
        j = j + 1;
    }
    proof {
        assert(desired@.subrange(0, n as int) =~= desired@);
    }
    r
}

/// The existing ids that no desired entry names: the rows whose zone list
/// the cycle must blank. The rows themselves are kept.
pub fn plan_staging_update(existing: &Vec<String>, desired: &Vec<StagingEntry>) -> (stale: Vec<
    String,
>)
    ensures
        forall|i: int|
            0 <= i < stale@.len() ==> !desired_has(desired@, #[trigger] stale@[i]@),
        forall|s: Seq<char>|
            (exists|i: int| 0 <= i < stale@.len() && #[trigger] stale@[i]@ == s) <==> ((exists|
                i: int,
            | 0 <= i < existing@.len() && #[trigger] existing@[i]@ == s) && !desired_has(
                desired@,
                s,
            )),
{
    let n = existing.len();
    let mut stale: Vec<String> = Vec::new();
    let mut i: usize = 0;
    while i < n
        invariant
            0 <= i <= n == existing@.len(),
            forall|k: int|
                0 <= k < stale@.len() ==> !desired_has(desired@, #[trigger] stale@[k]@),
            forall|s: Seq<char>|
                (exists|k: int| 0 <= k < stale@.len() && #[trigger] stale@[k]@ == s) <==> ((
                exists|k: int| 0 <= k < i && #[trigger] existing@[k]@ == s) && !desired_has(
                    desired@,
                    s,
                )),
        decreases n - i,
    {
        let id = &existing[i];
        let keep = desired_value_for(desired, id);
        proof {
            lemma_desired_dom(desired@, id@);
        }
        match keep {
            Some(_) => {},
            None => {
                let ghost old_s = stale@;
                stale.push(id.clone());
                proof {
                    assert(forall|k: int|
                        0 <= k < old_s.len() ==> stale@[k] == #[trigger] old_s[k]);
                    assert(stale@[old_s.len() as int]@ == existing@[i as int]@);
                }
            },
        }
        i = i + 1;
    }
    stale
}

/// The effect of one reconciliation cycle on the intake table, as the
/// transaction leaves it: stale rows blanked and kept, desired ids
/// upserted with the vendor bookkeeping reset. Row order is not part of
/// the contract.
pub fn apply_staging_cycle(table: &Vec<StagingRow>, desired: &Vec<StagingEntry>) -> (r: Vec<
    StagingRow,
>)
    requires
        forall|i: int, j: int|
            0 <= i < j < table@.len() ==> #[trigger] table@[i].ext_id@ != #[trigger] table@[
                j
            ].ext_id@,
    ensures
        forall|i: int, j: int|
            0 <= i < j < r@.len() ==> #[trigger] r@[i].ext_id@ != #[trigger] r@[j].ext_id@,
        forall|s: Seq<char>| #[trigger]
            row_in(r@, s) <==> (row_in(table@, s) || desired_has(desired@, s)),
        forall|i: int|
            0 <= i < r@.len() ==> {
                let row = #[trigger] r@[i];
                &&& row.needs_processing
                &&& !row.processed_stamp
                &&& !row.error
                &&& row.zone_list@ == row_after(desired_map(desired@), row.ext_id@).zone_list
            },
{
    let n = table.len();
    let mut out: Vec<StagingRow> = Vec::new();
    let mut i: usize = 0;
    while i < n
        invariant
            0 <= i <= n == table@.len(),
            forall|a: int, b: int|
                0 <= a < b < table@.len() ==> #[trigger] table@[a].ext_id@ != #[trigger] table@[
                    b
                ].ext_id@,
            forall|a: int, b: int|
                0 <= a < b < out@.len() ==> #[trigger] out@[a].ext_id@ != #[trigger] out@[
                    b
                ].ext_id@,
            forall|s: Seq<char>| #[trigger]
                row_in(out@, s) <==> ((exists|k: int|
                    0 <= k < i && #[trigger] table@[k].ext_id@ == s) && !desired_has(desired@, s)),
            forall|k: int|
                0 <= k < out@.len() ==> {
                    let row = #[trigger] out@[k];
                    &&& row.needs_processing
                    &&& !row.processed_stamp
                    &&& !row.error
                    &&& row.zone_list@ == Seq::<char>::empty()
                    &&& !desired_has(desired@, row.ext_id@)
                },
        decreases n - i,
    {
        let id = &table[i].ext_id;
        let keep = desired_value_for(desired, id);
        proof {
            lemma_desired_dom(desired@, id@);
        }
        match keep {
            Some(_) => {},
            None => {
                let ghost old_o = out@;
                out.push(
                    StagingRow {
                        ext_id: id.clone(),
                        zone_list: String::new(),
                        needs_processing: true,
                        processed_stamp: false,
                        error: false,
                    },
                );
                proof {
                    assert(forall|k: int|
                        0 <= k < old_o.len() ==> out@[k] == #[trigger] old_o[k]);
                    assert(out@[old_o.len() as int].ext_id@ == table@[i as int].ext_id@);
                    assert forall|a: int, b: int| 0 <= a < b < out@.len() implies #[trigger]
                        out@[a].ext_id@ != #[trigger] out@[b].ext_id@ by {
                        if b == old_o.len() {
                            assert(row_in(old_o, old_o[a].ext_id@));
                        }
                    }
                    assert forall|s: Seq<char>| #[trigger] row_in(out@, s) implies ((exists|
                        k: int,
                    | 0 <= k < i + 1 && #[trigger] table@[k].ext_id@ == s) && !desired_has(
                        desired@,
                        s,
                    )) by {
                        let k = choose|k: int| 0 <= k < out@.len() && #[trigger] out@[k].ext_id@
                            == s;
                        if k < old_o.len() {
                            assert(row_in(old_o, s));
                        } else {
                            assert(table@[i as int].ext_id@ == s);
                        }
                    }
                    assert forall|s: Seq<char>|
                        ((exists|k: int| 0 <= k < i + 1 && #[trigger] table@[k].ext_id@ == s)
                            && !desired_has(desired@, s)) implies #[trigger] row_in(out@, s) by {
                        let k = choose|k: int|
                            0 <= k < i + 1 && #[trigger] table@[k].ext_id@ == s;
                        if k < i {
                            assert(row_in(old_o, s));
                            let l = choose|l: int|
                                0 <= l < old_o.len() && #[trigger] old_o[l].ext_id@ == s;
                            assert(out@[l].ext_id@ == s);
                        } else {
                            assert(out@[old_o.len() as int].ext_id@ == s);
                        }
                    }
                }
            },
        }
        proof {
            assert forall|s: Seq<char>|
                ((exists|k: int| 0 <= k < i + 1 && #[trigger] table@[k].ext_id@ == s)
                    && !desired_has(desired@, s)) implies #[trigger] row_in(out@, s) by {
                let k = choose|k: int| 0 <= k < i + 1 && #[trigger] table@[k].ext_id@ == s;
                if k < i {
                    assert(row_in(out@, s));
                }
            }
        }
        i = i + 1;
    }
    proof {
        assert forall|k: int|
            0 <= k < out@.len() implies (#[trigger] out@[k]).zone_list@ == row_after(
                desired_map(desired@),
                out@[k].ext_id@,
            ).zone_list by {
            lemma_desired_dom(desired@, out@[k].ext_id@);
        }
    }
    let m = desired.len();
    let mut j: usize = 0;
    while j < m
        invariant
            0 <= j <= m == desired@.len(),
            n == table@.len(),
            forall|a: int, b: int|
                0 <= a < b < out@.len() ==> #[trigger] out@[a].ext_id@ != #[trigger] out@[
                    b
                ].ext_id@,
            forall|s: Seq<char>| #[trigger]
                row_in(out@, s) <==> ((row_in(table@, s) && !desired_has(desired@, s)) || (
                exists|k: int| 0 <= k < j && #[trigger] desired@[k].ext_user_id@ == s)),
            forall|k: int|
                0 <= k < out@.len() ==> {
                    let row = #[trigger] out@[k];
                    &&& row.needs_processing
                    &&& !row.processed_stamp
                    &&& !row.error
                    &&& row.zone_list@ == row_after(desired_map(desired@), row.ext_id@).zone_list
                },
        decreases m - j,
    {
        let id = &desired[j].ext_user_id;
        let mut seen = false;
        let k_out = out.len();
        let mut k: usize = 0;
        while k < k_out
            invariant
                0 <= k <= k_out == out@.len(),
                id@ == desired@[j as int].ext_user_id@,
                0 <= j < desired@.len(),
                seen <==> exists|l: int| 0 <= l < k && #[trigger] out@[l].ext_id@ == id@,
            decreases k_out - k,
        {
            if out[k].ext_id.eq(id) {
                seen = true;
                proof {
                    assert(out@[k as int].ext_id@ == id@);
                }
            }
            k = k + 1;
        }
        if !seen {
            match desired_value_for(desired, id) {
                Some(z) => {
                    let ghost old_o = out@;
                    out.push(
                        StagingRow {
                            ext_id: id.clone(),
                            zone_list: z,
                            needs_processing: true,
                            processed_stamp: false,
                            error: false,
                        },
                    );
                    proof {
                        assert(forall|l: int|
                            0 <= l < old_o.len() ==> out@[l] == #[trigger] old_o[l]);
                        assert(out@[old_o.len() as int].ext_id@ == desired@[
                            j as int
                        ].ext_user_id@);
                        assert forall|a: int, b: int| 0 <= a < b < out@.len() implies #[trigger]
                            out@[a].ext_id@ != #[trigger] out@[b].ext_id@ by {
                            if b == old_o.len() {
                            }
                        }
                        assert forall|s: Seq<char>| #[trigger] row_in(out@, s) implies ((row_in(
                            table@,
                            s,
                        ) && !desired_has(desired@, s)) || (exists|l: int|
                            0 <= l < j + 1 && #[trigger] desired@[l].ext_user_id@ == s)) by {
                            let l = choose|l: int|
                                0 <= l < out@.len() && #[trigger] out@[l].ext_id@ == s;
                            if l < old_o.len() {
                                assert(row_in(old_o, s));
                            } else {
                                assert(desired@[j as int].ext_user_id@ == s);
                            }
                        }
                        assert forall|s: Seq<char>|
                            ((row_in(table@, s) && !desired_has(desired@, s)) || (exists|l: int|
                                0 <= l < j + 1 && #[trigger] desired@[l].ext_user_id@ == s))
                            implies #[trigger] row_in(out@, s) by {
                            if row_in(table@, s) && !desired_has(desired@, s) {
                                assert(row_in(old_o, s));
                                let l = choose|l: int|
                                    0 <= l < old_o.len() && #[trigger] old_o[l].ext_id@ == s;
                                assert(out@[l].ext_id@ == s);
                            } else {
                                let l = choose|l: int|
                                    0 <= l < j + 1 && #[trigger] desired@[l].ext_user_id@ == s;
                                if l < j {
                                    assert(row_in(old_o, s));
                                    let q = choose|q: int|
                                        0 <= q < old_o.len() && #[trigger] old_o[q].ext_id@ == s;
                                    assert(out@[q].ext_id@ == s);
                                } else {
                                    assert(out@[old_o.len() as int].ext_id@ == s);
                                }
                            }
                        }
                        assert(desired_map(desired@).dom().contains(id@)
                            && out@[old_o.len() as int].zone_list@ == desired_map(desired@)[id@]);
                    }
                },
                None => {
                    proof {
                        lemma_desired_dom(desired@, id@);
                        assert(desired@[j as int].ext_user_id@ == id@);
                        assert(false);
                    }
                },
            }
        } else {
            proof {
                assert(out@[(choose|l: int| 0 <= l < k_out && #[trigger] out@[l].ext_id@
                    == id@)].ext_id@ == id@);
                assert(row_in(out@, desired@[j as int].ext_user_id@));
                assert forall|s: Seq<char>|
                    ((row_in(table@, s) && !desired_has(desired@, s)) || (exists|l: int|
                        0 <= l < j + 1 && #[trigger] desired@[l].ext_user_id@ == s))
                    implies #[trigger] row_in(out@, s) by {
                    if !(row_in(table@, s) && !desired_has(desired@, s)) {
                        let l = choose|l: int|
                            0 <= l < j + 1 && #[trigger] desired@[l].ext_user_id@ == s;
                        if l == j {
                            assert(s == id@);
                        }
                    }
                }
            }
        }
        j = j + 1;
    }
    out
}

/// The resolver's answer for transponder `t`: the first pair that names it.
pub open spec fn ext_lookup(m: Seq<(i64, Option<String>)>, t: i64) -> Option<Option<String>>
    decreases m.len(),
{
    if m.len() == 0 {
        None
    } else if m[0].0 == t {
        Some(m[0].1)
    } else {
        ext_lookup(m.drop_first(), t)
    }
}

/// The staging entries the grants become: one per grant whose transponder
/// resolved to an external id, in grant order. A transponder without an
/// external id yields no entry.
pub open spec fn staged_of(
    grants: Seq<(i64, String)>,
    m: Seq<(i64, Option<String>)>,
) -> Seq<(Seq<char>, Seq<char>)>
    decreases grants.len(),
{
    if grants.len() == 0 {
        Seq::<(Seq<char>, Seq<char>)>::empty()
    } else {
        (match ext_lookup(m, grants[0].0) {
            Some(e_opt) => match e_opt {
                Some(e) => seq![(e@, grants[0].1@)],
                None => Seq::<(Seq<char>, Seq<char>)>::empty(),
            },
            None => Seq::<(Seq<char>, Seq<char>)>::empty(),
        }) + staged_of(grants.drop_first(), m)
    }
}

/// The index of the first resolver pair naming `t`.
fn find_ext(m: &Vec<(i64, Option<String>)>, t: i64) -> (r: Option<usize>)
    ensures
        match r {
            Some(i) => i < m@.len() && m@[i as int].0 == t && ext_lookup(m@, t) == Some(
                m@[i as int].1,
            ),
            None => ext_lookup(m@, t) is None,
        },
{
    let n = m.len();
    proof {
        assert(m@.subrange(0, n as int) =~= m@);
    }
    let mut i: usize = 0;
    while i < n
        invariant
            0 <= i <= n == m@.len(),
            ext_lookup(m@, t) == ext_lookup(m@.subrange(i as int, n as int), t),
        decreases n - i,
    {
        proof {
            let rest = m@.subrange(i as int, n as int);
            assert(rest[0] == m@[i as int]);
            assert(rest.drop_first() =~= m@.subrange(i + 1, n as int));
        }
        if m[i].0 == t {
            return Some(i);
        }
        i = i + 1;
    }
    proof {
        assert(m@.subrange(n as int, n as int) =~= Seq::<(i64, Option<String>)>::empty());
    }
    None
}

/// Turn the per-transponder grants into staging entries by resolving each
/// transponder to its external id; grants whose transponder the directory
/// does not know are dropped.
pub fn attach_ext_ids(grants: &Vec<(i64, String)>, ext_ids: &Vec<(i64, Option<String>)>) -> (r: Vec<
    StagingEntry,
>)
    ensures
        r@.map_values(|se: StagingEntry| (se.ext_user_id@, se.ext_zone_id_list@)) == staged_of(
            grants@,
            ext_ids@,
        ),
{
    let n = grants.len();
    let mut out: Vec<StagingEntry> = Vec::new();
    proof {
        assert(grants@.subrange(0, n as int) =~= grants@);
        assert(out@.map_values(|se: StagingEntry| (se.ext_user_id@, se.ext_zone_id_list@)) =~=
            Seq::<(Seq<char>, Seq<char>)>::empty());
    }
    let mut i: usize = 0;
    while i < n
        invariant
            0 <= i <= n == grants@.len(),
            staged_of(grants@, ext_ids@) == out@.map_values(
                |se: StagingEntry| (se.ext_user_id@, se.ext_zone_id_list@),
            ) + staged_of(grants@.subrange(i as int, n as int), ext_ids@),
        decreases n - i,
    {
        proof {
            let rest = grants@.subrange(i as int, n as int);
            assert(rest[0] == grants@[i as int]);
            assert(rest.drop_first() =~= grants@.subrange(i + 1, n as int));
        }
        match find_ext(ext_ids, grants[i].0) {
            Some(idx) => {
                match &ext_ids[idx].1 {
                    Some(e) => {
                        let ghost old_o = out@;
                        out.push(
                            StagingEntry {
                                ext_user_id: e.clone(),
                                ext_zone_id_list: grants[i].1.clone(),
                            },
                        );
                        proof {
                            let f = |se: StagingEntry| (se.ext_user_id@, se.ext_zone_id_list@);
                            assert(out@.map_values(f) =~= old_o.map_values(f) + seq![
                                (e@, grants@[i as int].1@),
                            ]);
                            assert(old_o.map_values(f) + (seq![(e@, grants@[i as int].1@)]
                                + staged_of(grants@.subrange(i + 1, n as int), ext_ids@)) =~= (
                            old_o.map_values(f) + seq![(e@, grants@[i as int].1@)]) + staged_of(
                                grants@.subrange(i + 1, n as int),
                                ext_ids@,
                            ));
                        }
                    },
                    None => {},
                }
            },
            None => {},
        }
        i = i + 1;
    }
    proof {
        assert(grants@.subrange(n as int, n as int) =~= Seq::<(i64, String)>::empty());
        assert(out@.map_values(|se: StagingEntry| (se.ext_user_id@, se.ext_zone_id_list@))
            + staged_of(grants@.subrange(n as int, n as int), ext_ids@) =~= out@.map_values(
            |se: StagingEntry| (se.ext_user_id@, se.ext_zone_id_list@),
        ));
    }
    out
}

/// One row as abstract state.
pub open spec fn row_model_of(r: StagingRow) -> RowModel {
    RowModel {
        zone_list: r.zone_list@,
        needs_processing: r.needs_processing,
        processed_stamp: r.processed_stamp,
        error: r.error,
    }
}

/// A row list as a table keyed by external id (the last row wins; with
/// unique ids, the only row).
pub open spec fn table_model(rows: Seq<StagingRow>) -> Map<Seq<char>, RowModel>
    decreases rows.len(),
{
    if rows.len() == 0 {
        Map::<Seq<char>, RowModel>::empty()
    } else {
        table_model(rows.drop_last()).insert(rows.last().ext_id@, row_model_of(rows.last()))
    }
}

/// `table_model`'s domain is exactly the ids the rows carry.
pub proof fn lemma_table_model_dom(rows: Seq<StagingRow>, s: Seq<char>)
    ensures
        table_model(rows).dom().contains(s) <==> row_in(rows, s),
    decreases rows.len(),
{
    if rows.len() == 0 {
    } else {
        lemma_table_model_dom(rows.drop_last(), s);
        assert(forall|i: int| 0 <= i < rows.len() - 1 ==> #[trigger] rows.drop_last()[i]
            == rows[i]);
        if table_model(rows).dom().contains(s) {
            if rows.last().ext_id@ == s {
                assert(rows[rows.len() - 1].ext_id@ == s);
            } else {
                let i = choose|i: int|
                    0 <= i < rows.drop_last().len() && #[trigger] rows.drop_last()[i].ext_id@
                        == s;
                assert(rows[i].ext_id@ == s);
            }
        }
        if row_in(rows, s) {
            let i = choose|i: int| 0 <= i < rows.len() && #[trigger] rows[i].ext_id@ == s;
            if i < rows.len() - 1 {
                assert(rows.drop_last()[i].ext_id@ == s);
            }
        }
    }
}

/// With unique ids, the table maps each row's id to that row's state.
pub proof fn lemma_table_model_at(rows: Seq<StagingRow>, i: int)
    requires
        forall|a: int, b: int|
            0 <= a < b < rows.len() ==> #[trigger] rows[a].ext_id@ != #[trigger] rows[b].ext_id@,
        0 <= i < rows.len(),
    ensures
        table_model(rows)[rows[i].ext_id@] == row_model_of(rows[i]),
    decreases rows.len(),
{
    if i == rows.len() - 1 {
        assert(rows.last() == rows[i]);
    } else {
        assert(forall|i: int| 0 <= i < rows.len() - 1 ==> #[trigger] rows.drop_last()[i]
            == rows[i]);
        lemma_table_model_at(rows.drop_last(), i);
        assert(rows.last().ext_id@ != rows[i].ext_id@);
    }
}

/// LAW: a cycle's executable effect is exactly the `reconcile` model: the
/// rows `apply_staging_cycle` promises form the reconciled table.
pub proof fn lemma_cycle_reconciles(
    table: Seq<StagingRow>,
    d: Seq<StagingEntry>,
    r: Seq<StagingRow>,
)
    requires
        forall|a: int, b: int|
            0 <= a < b < table.len() ==> #[trigger] table[a].ext_id@ != #[trigger] table[
                b
            ].ext_id@,
        forall|a: int, b: int|
            0 <= a < b < r.len() ==> #[trigger] r[a].ext_id@ != #[trigger] r[b].ext_id@,
        forall|s: Seq<char>| #[trigger] row_in(r, s) <==> (row_in(table, s) || desired_has(d, s)),
        forall|i: int|
            0 <= i < r.len() ==> {
                let row = #[trigger] r[i];
                &&& row.needs_processing
                &&& !row.processed_stamp
                &&& !row.error
                &&& row.zone_list@ == row_after(desired_map(d), row.ext_id@).zone_list
            },
    ensures
        table_model(r) == reconcile(table_model(table), d),
{
    let lhs = table_model(r);
    let rhs = reconcile(table_model(table), d);
    assert(lhs =~= rhs) by {
        assert forall|s: Seq<char>| #[trigger]
            lhs.dom().contains(s) implies rhs.dom().contains(s) by {
            lemma_table_model_dom(r, s);
            lemma_table_model_dom(table, s);
            lemma_desired_dom(d, s);
        }
        assert forall|s: Seq<char>| #[trigger]
            rhs.dom().contains(s) implies lhs.dom().contains(s) by {
            lemma_table_model_dom(r, s);
            lemma_table_model_dom(table, s);
            lemma_desired_dom(d, s);
        }
        assert forall|s: Seq<char>| lhs.dom().contains(s) implies #[trigger] lhs[s] == rhs[s] by {
            lemma_table_model_dom(r, s);
            let i = choose|i: int| 0 <= i < r.len() && #[trigger] r[i].ext_id@ == s;
            lemma_table_model_at(r, i);
            lemma_table_model_dom(table, s);
            lemma_desired_dom(d, s);
            assert(lhs[s] == row_model_of(r[i]));
            assert(row_model_of(r[i]).zone_list == row_after(desired_map(d), s).zone_list);
        }
    }
}

} // verus!
