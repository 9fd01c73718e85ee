//! Comparison of several `.env` maps key by key.
use vstd::prelude::*;

use crate::env::{lemma_index_from, lookup, EntryModel, EnvMap};
use crate::text::{
    chars_equal, chars_less, chars_lt, lemma_chars_lt_irreflexive,
    lemma_chars_lt_total, lemma_chars_lt_transitive, slice_chars, string_of,
};

verus! {

/// Status of a key across environments.
#[derive(Debug, Clone, Copy, PartialEq, Eq, Structural)]
pub enum KeyStatus {
    /// Present in all files with the same value.
    Same,
    /// Present in all files but with different values.
    Different,
    /// Missing from at least one file.
    Missing,
}

/// A single row in the diff result.
#[derive(Debug, Clone)]
pub struct DiffRow {
    pub key: String,
    pub status: KeyStatus,
    /// One value per file (None if missing from that file).
    pub values: Vec<Option<String>>,
}

/// The character sequence of an optional string.
pub open spec fn opt_model(o: Option<String>) -> Option<Seq<char>> {
    match o {
        Some(s) => Some(s@),
        None => None,
    }
}

impl DiffRow {
    /// The values as character sequences.
    pub open spec fn values_model(&self) -> Seq<Option<Seq<char>>> {
        self.values@.map_values(|o: Option<String>| opt_model(o))
    }
}

/// The maps' entries.
pub open spec fn envs_model(envs: Seq<EnvMap>) -> Seq<Seq<EntryModel>> {
    envs.map_values(|m: EnvMap| m.model())
}

/// Whether some map has the key `k`.
pub open spec fn in_some(envs: Seq<Seq<EntryModel>>, k: Seq<char>) -> bool {
    exists|i: int| 0 <= i < envs.len() && (#[trigger] lookup(envs[i], k)) is Some
}

/// The value of `k` in each map.
pub open spec fn values_of(envs: Seq<Seq<EntryModel>>, k: Seq<char>) -> Seq<Option<Seq<char>>> {
    Seq::new(envs.len(), |i: int| lookup(envs[i], k))
}

/// `Missing` when a value is absent, else `Same` when all values equal the
/// first, else `Different`.
pub open spec fn status_of(vals: Seq<Option<Seq<char>>>) -> KeyStatus {
    if exists|i: int| 0 <= i < vals.len() && (#[trigger] vals[i]) is None {
        KeyStatus::Missing
    } else if forall|i: int| 0 <= i < vals.len() ==> #[trigger] vals[i] == vals[0] {
        KeyStatus::Same
    } else {
        KeyStatus::Different
    }
}

/// Rank of a status in the diff order: missing keys first, then different,
/// then same.
pub open spec fn order_of(s: KeyStatus) -> u8 {
    match s {
        KeyStatus::Missing => 0,
        KeyStatus::Different => 1,
        KeyStatus::Same => 2,
    }
}

/// Rank of a status in the diff order.
pub fn status_order(s: &KeyStatus) -> (r: u8)
    ensures
        r == order_of(*s),
{
    match s {
        KeyStatus::Missing => 0,
        KeyStatus::Different => 1,
        KeyStatus::Same => 2,
    }
}

/// Whether row `a` comes before row `b`: by status rank, then by key.
pub open spec fn row_before(a: DiffRow, b: DiffRow) -> bool {
    order_of(a.status) < order_of(b.status) || (order_of(a.status) == order_of(b.status)
        && chars_lt(a.key@, b.key@))
}

/// Row `r` is the row of its key: the key is in some map, the values are
/// the maps' values for it and the status follows from them.
pub open spec fn row_of(envs: Seq<Seq<EntryModel>>, r: DiffRow) -> bool {
    &&& in_some(envs, r.key@)
    &&& r.values_model() == values_of(envs, r.key@)
    &&& r.status == status_of(values_of(envs, r.key@))
}

/// `rows` is the diff of `envs`: one row for each key of any map, in
/// order of status rank and then key.
pub open spec fn diff_ok(envs: Seq<Seq<EntryModel>>, rows: Seq<DiffRow>) -> bool {
    &&& forall|i: int| 0 <= i < rows.len() ==> row_of(envs, #[trigger] rows[i])
    &&& forall|k: Seq<char>|
        in_some(envs, k) ==> exists|i: int| 0 <= i < rows.len() && (#[trigger] rows[i]).key@ == k
    &&& forall|i: int, j: int| 0 <= i < j < rows.len() ==> row_before(rows[i], rows[j])
}

/// Whether any row is not `Same`.
pub open spec fn any_difference(rows: Seq<DiffRow>) -> bool {
    exists|i: int| 0 <= i < rows.len() && (#[trigger] rows[i]).status != KeyStatus::Same
}

proof fn lemma_lookup_some(es: Seq<EntryModel>, k: Seq<char>, j: int)
    requires
        0 <= j < es.len(),
        es[j].0 == k,
    ensures
        lookup(es, k) is Some,
{
    lemma_index_from(es, k, 0);
}

proof fn lemma_row_before_total(a: DiffRow, b: DiffRow)
    requires
        a.key@ != b.key@,
    ensures
        row_before(a, b) || row_before(b, a),
{
    lemma_chars_lt_total(a.key@, b.key@);
}

proof fn lemma_row_before_transitive(a: DiffRow, b: DiffRow, c: DiffRow)
    requires
        row_before(a, b),
        row_before(b, c),
    ensures
        row_before(a, c),
{
    if order_of(a.status) == order_of(b.status) && order_of(b.status) == order_of(c.status) {
        lemma_chars_lt_transitive(a.key@, b.key@, c.key@);
    }
}

/// Builds the row of key `k`.
fn make_row(envs: &[EnvMap], k: &Vec<char>) -> (r: DiffRow)
    requires
        in_some(envs_model(envs@), k@),
    ensures
        row_of(envs_model(envs@), r),
        r.key@ == k@,
{
    let ghost em = envs_model(envs@);
    let mut values: Vec<Option<String>> = Vec::new();
    let mut all_present = true;
    let mut i: usize = 0;
    while i < envs.len()
        invariant
            i <= envs.len(),
            em == envs_model(envs@),
            values@.len() == i,
            forall|j: int| 0 <= j < i ==> opt_model(#[trigger] values@[j]) == lookup(em[j], k@),
            all_present == (forall|j: int| 0 <= j < i ==> (#[trigger] values@[j]) is Some),
        decreases envs.len() - i,
    {
        assert(em[i as int] == envs@[i as int].model());
        let v = match envs[i].lookup_chars(k) {
            Some(v) => Some(string_of(v)),
            None => None,
        };
        let ghost old_values = values@;
        all_present = all_present && v.is_some();
        values.push(v);
        proof {
            assert forall|j: int| 0 <= j < i + 1 implies opt_model(#[trigger] values@[j]) == lookup(
                em[j],
                k@,
            ) by {
                if j < i {
                    assert(values@[j] == old_values[j]);
                }
            }
            if all_present {
                assert forall|j: int| 0 <= j < i + 1 implies (#[trigger] values@[j]) is Some by {
                    if j < i {
                        assert(values@[j] == old_values[j]);
                    }
                }
            } else {
                if v.is_some() {
                    let j = choose|j: int| 0 <= j < i && !((#[trigger] old_values[j]) is Some);
                    assert(values@[j] == old_values[j]);
                } else {
                    assert(values@[i as int] is None);
                }
            }
        }
        i = i + 1;
    }
    let ghost vals = values_of(em, k@);
    assert(values@.map_values(|o: Option<String>| opt_model(o)) =~= vals);
    let status = if !all_present {
        proof {
            let j = choose|j: int| 0 <= j < values@.len() && !((#[trigger] values@[j]) is Some);
            assert(vals[j] == opt_model(values@[j]));
        }
        KeyStatus::Missing
    } else {
        assert forall|j: int| 0 <= j < vals.len() implies (#[trigger] vals[j]) is Some by {
            assert(vals[j] == opt_model(values@[j]));
        }
        let mut same = true;
        let mut j: usize = 0;
        while j < values.len()
            invariant
                j <= values.len() == envs.len(),
                values@.map_values(|o: Option<String>| opt_model(o)) == vals,
                vals.len() == envs.len(),
                forall|m: int| 0 <= m < vals.len() ==> (#[trigger] vals[m]) is Some,
                same == (forall|m: int| 0 <= m < j ==> #[trigger] vals[m] == vals[0]),
            decreases values.len() - j,
        {
            assert(opt_model(values@[j as int]) == vals[j as int]);
            assert(opt_model(values@[0]) == vals[0]);
            let eq = match (&values[j], &values[0]) {
                (Some(a), Some(b)) => *a == *b,
                _ => false,
            };
            if !eq {
                same = false;
            }
            j = j + 1;
        }
        if same {
            KeyStatus::Same
        } else {
            KeyStatus::Different
        }
    };
    let key = string_of(k);
    DiffRow { key, status, values }
}

/// Whether `k` is one of the first `n` keys.
pub open spec fn among(keys: Seq<Vec<char>>, n: int, k: Seq<char>) -> bool {
    exists|a: int| 0 <= a < n && (#[trigger] keys[a])@ == k
}

/// Whether some row has the key `k`.
pub open spec fn has_row(rows: Seq<DiffRow>, k: Seq<char>) -> bool {
    exists|i: int| 0 <= i < rows.len() && (#[trigger] rows[i]).key@ == k
}

/// Whether the rows are in diff order.
pub open spec fn rows_sorted(rows: Seq<DiffRow>) -> bool {
    forall|i: int, j: int| 0 <= i < j < rows.len() ==> row_before(rows[i], rows[j])
}

proof fn lemma_among_push(keys: Seq<Vec<char>>, n: Vec<char>, k: Seq<char>)
    requires
        among(keys, keys.len() as int, k),
    ensures
        among(keys.push(n), keys.len() + 1 as int, k),
{
    let a = choose|a: int| 0 <= a < keys.len() && (#[trigger] keys[a])@ == k;
    assert(keys.push(n)[a] == keys[a]);
}

proof fn lemma_insert_sorted(old_rows: Seq<DiffRow>, row: DiffRow, p: int)
    requires
        0 <= p <= old_rows.len(),
        rows_sorted(old_rows),
        forall|i: int| 0 <= i < p ==> row_before(#[trigger] old_rows[i], row),
        p < old_rows.len() ==> row_before(row, old_rows[p]),
    ensures
        rows_sorted(old_rows.insert(p, row)),
{
    let rows = old_rows.insert(p, row);
    assert forall|i: int, j: int| 0 <= i < j < rows.len() implies row_before(rows[i], rows[j]) by {
        if j < p {
            assert(rows[i] == old_rows[i] && rows[j] == old_rows[j]);
        } else if j == p {
            assert(rows[i] == old_rows[i]);
        } else if i < p {
            assert(rows[i] == old_rows[i] && rows[j] == old_rows[j - 1]);
            if j - 1 > p {
                lemma_row_before_transitive(row, old_rows[p], old_rows[j - 1]);
            }
            lemma_row_before_transitive(old_rows[i], row, old_rows[j - 1]);
        } else if i == p {
            assert(rows[j] == old_rows[j - 1]);
            if j - 1 > p {
                lemma_row_before_transitive(row, old_rows[p], old_rows[j - 1]);
            }
        } else {
            assert(rows[i] == old_rows[i - 1] && rows[j] == old_rows[j - 1]);
        }
    }
}

proof fn lemma_insert_rows(
    em: Seq<Seq<EntryModel>>,
    keys: Seq<Vec<char>>,
    a: int,
    old_rows: Seq<DiffRow>,
    old_row_keys: Seq<Vec<char>>,
    row: DiffRow,
    p: int,
)
    requires
        0 <= a < keys.len(),
        0 <= p <= old_rows.len(),
        old_rows.len() == old_row_keys.len(),
        row.key@ == keys[a]@,
        row_of(em, row),
        forall|i: int| 0 <= i < old_rows.len() ==> (#[trigger] old_row_keys[i])@ == old_rows[i].key@,
        forall|i: int| 0 <= i < old_rows.len() ==> row_of(em, #[trigger] old_rows[i]),
        forall|b: int| 0 <= b < a ==> has_row(old_rows, (#[trigger] keys[b])@),
        forall|i: int| 0 <= i < old_rows.len() ==> among(keys, a, (#[trigger] old_rows[i]).key@),
    ensures
        ({
            let rows = old_rows.insert(p, row);
            let rk = old_row_keys.insert(p, keys[a]);
            &&& forall|i: int| 0 <= i < rows.len() ==> (#[trigger] rk[i])@ == rows[i].key@
            &&& forall|i: int| 0 <= i < rows.len() ==> row_of(em, #[trigger] rows[i])
            &&& forall|b: int| 0 <= b < a + 1 ==> has_row(rows, (#[trigger] keys[b])@)
            &&& forall|i: int| 0 <= i < rows.len() ==> among(keys, a + 1, (#[trigger] rows[i]).key@)
        }),
{
    let rows = old_rows.insert(p, row);
    let rk = old_row_keys.insert(p, keys[a]);
    assert forall|i: int| 0 <= i < rows.len() implies (#[trigger] rk[i])@ == rows[i].key@ by {
        if i < p {
            assert(rk[i] == old_row_keys[i] && rows[i] == old_rows[i]);
        } else if i > p {
            assert(rk[i] == old_row_keys[i - 1] && rows[i] == old_rows[i - 1]);
        }
    }
    assert forall|i: int| 0 <= i < rows.len() implies row_of(em, #[trigger] rows[i]) by {
        if i < p {
            assert(rows[i] == old_rows[i]);
        } else if i > p {
            assert(rows[i] == old_rows[i - 1]);
        }
    }
    assert forall|b: int| 0 <= b < a + 1 implies has_row(rows, (#[trigger] keys[b])@) by {
        if b == a {
            assert(rows[p].key@ == keys[b]@);
        } else {
            assert(has_row(old_rows, keys[b]@));
            let i = choose|i: int| 0 <= i < old_rows.len() && (#[trigger] old_rows[i]).key@ == keys[b]@;
            if i < p {
                assert(rows[i] == old_rows[i]);
            } else {
                assert(rows[i + 1] == old_rows[i]);
            }
        }
    }
    assert forall|i: int| 0 <= i < rows.len() implies among(keys, a + 1, (#[trigger] rows[i]).key@) by {
        if i < p {
            assert(rows[i] == old_rows[i]);
            assert(among(keys, a, old_rows[i].key@));
        } else if i > p {
            assert(rows[i] == old_rows[i - 1]);
            assert(among(keys, a, old_rows[i - 1].key@));
        } else {
            assert(keys[a]@ == rows[i].key@);
        }
    }
}

/// Compare multiple env maps and produce a sorted diff table.
pub fn diff_envs(envs: &[EnvMap]) -> (rows: Vec<DiffRow>)
    ensures
        diff_ok(envs_model(envs@), rows@),
{
    let ghost em = envs_model(envs@);
    // Collect all keys across all files.
    let mut keys: Vec<Vec<char>> = Vec::new();
    let mut e: usize = 0;
    while e < envs.len()
        invariant
            e <= envs.len(),
            em == envs_model(envs@),
            forall|a: int| 0 <= a < keys@.len() ==> in_some(em, #[trigger] keys@[a]@),
            forall|a: int, b: int| 0 <= a < b < keys@.len() ==> keys@[a]@ != keys@[b]@,
            forall|x: int, j: int|
                0 <= x < e && 0 <= j < em[x].len() ==> among(
                    keys@,
                    keys@.len() as int,
                    (#[trigger] em[x][j]).0,
                ),
        decreases envs.len() - e,
    {
        let env = &envs[e];
        assert(em[e as int] == env.model());
        let mut j: usize = 0;
        while j < env.entries.len()
            invariant
                j <= env.entries.len(),
                e < envs.len(),
                env == &envs@[e as int],
                em == envs_model(envs@),
                em[e as int] == env.model(),
                forall|a: int| 0 <= a < keys@.len() ==> in_some(em, #[trigger] keys@[a]@),
                forall|a: int, b: int| 0 <= a < b < keys@.len() ==> keys@[a]@ != keys@[b]@,
                forall|x: int, m: int|
                    0 <= x < e && 0 <= m < em[x].len() ==> among(
                        keys@,
                        keys@.len() as int,
                        (#[trigger] em[x][m]).0,
                    ),
                forall|m: int|
                    0 <= m < j ==> among(keys@, keys@.len() as int, (#[trigger] em[e as int][m]).0),
            decreases env.entries.len() - j,
        {
            let k = &env.entries[j].0;
            assert(k@ == em[e as int][j as int].0);
            let mut found = false;
            let mut a: usize = 0;
            while a < keys.len()
                invariant
                    a <= keys.len(),
                    found ==> among(keys@, keys@.len() as int, k@),
                    !found ==> forall|b: int| 0 <= b < a ==> (#[trigger] keys@[b])@ != k@,
                decreases keys.len() - a,
            {
                if chars_equal(&keys[a], k) {
                    found = true;
                }
                a = a + 1;
            }
            if !found {
                proof {
                    lemma_lookup_some(em[e as int], k@, j as int);
                    assert(in_some(em, k@)) by {
                        assert(lookup(em[e as int], k@) is Some);
                    }
                }
                let ghost old_keys = keys@;
                let kc = slice_chars(k, 0, k.len());
                assert(kc@ =~= k@);
                keys.push(kc);
                proof {
                    assert forall|x: int, m: int|
                        0 <= x < e && 0 <= m < em[x].len() implies among(
                            keys@,
                            keys@.len() as int,
                            (#[trigger] em[x][m]).0,
                        ) by {
                        lemma_among_push(old_keys, kc, em[x][m].0);
                    }
                    assert forall|m: int| 0 <= m < j + 1 implies among(
                        keys@,
                        keys@.len() as int,
                        (#[trigger] em[e as int][m]).0,
                    ) by {
                        if m < j {
                            lemma_among_push(old_keys, kc, em[e as int][m].0);
                        } else {
                            assert(keys@[old_keys.len() as int]@ == k@);
                        }
                    }
                    assert forall|a: int, b: int| 0 <= a < b < keys@.len() implies keys@[a]@ != keys@[b]@ by {
                        if b == old_keys.len() {
                            assert(keys@[a] == old_keys[a]);
                        } else {
                            assert(keys@[a] == old_keys[a] && keys@[b] == old_keys[b]);
                        }
                    }
                    assert forall|a: int| 0 <= a < keys@.len() implies in_some(em, #[trigger] keys@[a]@) by {
                        if a < old_keys.len() {
                            assert(keys@[a] == old_keys[a]);
                        }
                    }
                }
            }
            j = j + 1;
        }
        e = e + 1;
    }
    proof {
        assert forall|k: Seq<char>| in_some(em, k) implies among(keys@, keys@.len() as int, k) by {
            let x = choose|x: int| 0 <= x < em.len() && (#[trigger] lookup(em[x], k)) is Some;
            lemma_index_from(em[x], k, 0);
            let m = crate::env::key_index(em[x], k);
            assert(em[x][m].0 == k);
        }
    }
    // One row per key, kept sorted as it is built.
    let mut rows: Vec<DiffRow> = Vec::new();
    let mut row_keys: Vec<Vec<char>> = Vec::new();
    let mut a: usize = 0;
    while a < keys.len()
        invariant
            a <= keys.len(),
            em == envs_model(envs@),
            forall|b: int| 0 <= b < keys@.len() ==> in_some(em, #[trigger] keys@[b]@),
            forall|b: int, c: int| 0 <= b < c < keys@.len() ==> keys@[b]@ != keys@[c]@,
            rows@.len() == row_keys@.len(),
            forall|i: int| 0 <= i < rows@.len() ==> (#[trigger] row_keys@[i])@ == rows@[i].key@,
            forall|i: int| 0 <= i < rows@.len() ==> row_of(em, #[trigger] rows@[i]),
            forall|b: int| 0 <= b < a ==> has_row(rows@, (#[trigger] keys@[b])@),
            forall|i: int| 0 <= i < rows@.len() ==> among(keys@, a as int, (#[trigger] rows@[i]).key@),
            rows_sorted(rows@),
        decreases keys.len() - a,
    {
        let row = make_row(envs, &keys[a]);
        let mut p: usize = 0;
        while p < rows.len() && !row_precedes(&row, &keys[a], &rows[p], &row_keys[p])
            invariant
                p <= rows.len() == row_keys.len(),
                a < keys.len(),
                row.key@ == keys@[a as int]@,
                forall|i: int| 0 <= i < rows@.len() ==> (#[trigger] row_keys@[i])@ == rows@[i].key@,
                forall|i: int| 0 <= i < p ==> !row_before(row, #[trigger] rows@[i]),
            decreases rows.len() - p,
        {
            p = p + 1;
        }
        let ghost old_rows = rows@;
        let ghost old_row_keys = row_keys@;
        proof {
            assert forall|i: int| 0 <= i < p implies row_before(#[trigger] old_rows[i], row) by {
                assert(among(keys@, a as int, old_rows[i].key@));
                let b = choose|b: int| 0 <= b < a && (#[trigger] keys@[b])@ == old_rows[i].key@;
                assert(keys@[b]@ != keys@[a as int]@);
                lemma_row_before_total(old_rows[i], row);
            }
            lemma_insert_sorted(old_rows, row, p as int);
            lemma_insert_rows(em, keys@, a as int, old_rows, old_row_keys, row, p as int);
        }
        let kc = slice_chars(&keys[a], 0, keys[a].len());
        assert(kc@ =~= keys@[a as int]@);
        rows.insert(p, row);
        row_keys.insert(p, kc);
        proof {
            assert(rows@ == old_rows.insert(p as int, row));
            assert forall|i: int| 0 <= i < rows@.len() implies (#[trigger] row_keys@[i])@ == rows@[i].key@ by {
                if i < p {
                    assert(row_keys@[i] == old_row_keys[i]);
                    assert(rows@[i] == old_rows[i]);
                } else if i > p {
                    assert(row_keys@[i] == old_row_keys[i - 1]);
                    assert(rows@[i] == old_rows[i - 1]);
                }
            }
        }
        a = a + 1;
    }
    proof {
        assert forall|k: Seq<char>| in_some(em, k) implies exists|i: int|
            0 <= i < rows@.len() && (#[trigger] rows@[i]).key@ == k by {
            let b = choose|b: int| 0 <= b < keys@.len() && (#[trigger] keys@[b])@ == k;
            assert(has_row(rows@, keys@[b]@));
        }
    }
    rows
}

/// Whether `a` comes before `b` in the diff order.
fn row_precedes(a: &DiffRow, ak: &Vec<char>, b: &DiffRow, bk: &Vec<char>) -> (r: bool)
    requires
        ak@ == a.key@,
        bk@ == b.key@,
    ensures
        r == row_before(*a, *b),
{
    let x = status_order(&a.status);
    let y = status_order(&b.status);
    x < y || (x == y && chars_less(ak, bk))
}

/// Returns true if there are any differences (missing or different values).
pub fn has_differences(rows: &[DiffRow]) -> (r: bool)
    ensures
        r == any_difference(rows@),
{
    let mut i: usize = 0;
    while i < rows.len()
        invariant
            i <= rows.len(),
            forall|j: int| 0 <= j < i ==> (#[trigger] rows@[j]).status == KeyStatus::Same,
        decreases rows.len() - i,
    {
        if rows[i].status != KeyStatus::Same {
            return true;
        }
        i = i + 1;
    }
    false
}

/// Two maps differ when some key has a different value (or is present in
/// one and absent in the other).
pub open spec fn maps_differ(a: Seq<EntryModel>, b: Seq<EntryModel>) -> bool {
    exists|k: Seq<char>| lookup(a, k) != lookup(b, k)
}

/// The diff of one or more maps shows a difference exactly when some map
/// differs from the first one.
pub proof fn law_differences_iff_maps_differ(envs: Seq<Seq<EntryModel>>, rows: Seq<DiffRow>)
    requires
        envs.len() > 0,
        diff_ok(envs, rows),
    ensures
        any_difference(rows) <==> exists|i: int|
            0 <= i < envs.len() && maps_differ(#[trigger] envs[i], envs[0]),
{
    if any_difference(rows) {
        let r = choose|r: int| 0 <= r < rows.len() && (#[trigger] rows[r]).status != KeyStatus::Same;
        assert(row_of(envs, rows[r]));
        let k = rows[r].key@;
        let vals = values_of(envs, k);
        if exists|i: int| 0 <= i < vals.len() && (#[trigger] vals[i]) is None {
            let i = choose|i: int| 0 <= i < vals.len() && (#[trigger] vals[i]) is None;
            let j = choose|j: int| 0 <= j < envs.len() && (#[trigger] lookup(envs[j], k)) is Some;
            assert(vals[i] == lookup(envs[i], k));
            if lookup(envs[0], k) is Some {
                assert(maps_differ(envs[i], envs[0]));
            } else {
                assert(lookup(envs[j], k) != lookup(envs[0], k));
                assert(maps_differ(envs[j], envs[0]));
            }
        } else {
            let i = choose|i: int| 0 <= i < vals.len() && !(#[trigger] vals[i] == vals[0]);
            assert(vals[i] == lookup(envs[i], k));
            assert(lookup(envs[i], k) != lookup(envs[0], k));
            assert(maps_differ(envs[i], envs[0]));
        }
    }
    if exists|i: int| 0 <= i < envs.len() && maps_differ(#[trigger] envs[i], envs[0]) {
        let i = choose|i: int| 0 <= i < envs.len() && maps_differ(#[trigger] envs[i], envs[0]);
        let k = choose|k: Seq<char>| lookup(envs[i], k) != lookup(envs[0], k);
        if lookup(envs[i], k) is Some {
            assert(in_some(envs, k));
        } else {
            assert(lookup(envs[0], k) is Some);
            assert(in_some(envs, k));
        }
        let r = choose|r: int| 0 <= r < rows.len() && (#[trigger] rows[r]).key@ == k;
        assert(row_of(envs, rows[r]));
        let vals = values_of(envs, k);
        assert(vals[i] != vals[0]);
        assert(rows[r].status != KeyStatus::Same);
    }
}

} // verus!
