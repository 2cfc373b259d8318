//! Helpers for exercising the library end to end: building expected
//! comma-separated text, splitting produced text back into per-client rows,
//! and comparing two outputs without regard to row order.

use vstd::prelude::*;
use vstd::string::{StrSliceExecFns, StringExecFns};

use crate::io::{csv_text, header_fields, write_csv_records};
use crate::text::plain_field;

verus! {

/// One expected output row, each field already rendered as text.
pub struct ClientRow {
    pub client: &'static str,
    pub available: &'static str,
    pub held: &'static str,
    pub total: &'static str,
    pub locked: &'static str,
}

impl ClientRow {
    pub fn new(
        client: &'static str,
        available: &'static str,
        held: &'static str,
        total: &'static str,
        locked: &'static str,
    ) -> (r: Self)
        ensures
            r.client == client,
            r.available == available,
            r.held == held,
            r.total == total,
            r.locked == locked,
    {
        Self { client, available, held, total, locked }
    }
}

/// The fields of one expected row.
pub open spec fn client_row_fields(r: [&'static str; 5]) -> Seq<Seq<char>> {
    seq![r[0]@, r[1]@, r[2]@, r[3]@, r[4]@]
}

/// Whether every field of an expected row is plain.
pub open spec fn plain_row(r: [&'static str; 5]) -> bool {
    plain_field(r[0]@) && plain_field(r[1]@) && plain_field(r[2]@) && plain_field(r[3]@)
        && plain_field(r[4]@)
}

/// Renders expected rows as comma-separated text, under the usual header.
pub fn create_csv(rows: Vec<[&'static str; 5]>) -> (r: String)
    requires
        forall|i: int| 0 <= i < rows@.len() ==> plain_row(#[trigger] rows@[i]),
    ensures
        r@ == csv_text(
            seq![header_fields()] + rows@.map_values(|row: [&'static str; 5]| client_row_fields(row)),
        ),
{
    let mut client_rows: Vec<ClientRow> = Vec::new();
    let mut i: usize = 0;
    while i < rows.len()
        invariant
            i <= rows@.len(),
            client_rows@.len() == i,
            forall|k: int|
                0 <= k < i ==> {
                    let cr = #[trigger] client_rows@[k];
                    cr.client == rows@[k][0] && cr.available == rows@[k][1] && cr.held
                        == rows@[k][2] && cr.total == rows@[k][3] && cr.locked == rows@[k][4]
                },
        decreases rows@.len() - i,
    {
        let row = rows[i];
        client_rows.push(ClientRow::new(row[0], row[1], row[2], row[3], row[4]));
        i = i + 1;
    }
    let ghost target = seq![header_fields()] + rows@.map_values(
        |row: [&'static str; 5]| client_row_fields(row),
    );
    let mut records: Vec<Vec<String>> = Vec::new();
    let mut header: Vec<String> = Vec::new();
    header.push(String::from_str("client"));
    header.push(String::from_str("available"));
    header.push(String::from_str("held"));
    header.push(String::from_str("total"));
    header.push(String::from_str("locked"));
    proof {
        assert(header.deep_view() =~= header_fields());
    }
    records.push(header);
    proof {
        assert(records.deep_view() =~= target.take(1));
    }
    let mut j: usize = 0;
    while j < client_rows.len()
        invariant
            j <= client_rows@.len(),
            client_rows@.len() == rows@.len(),
            forall|k: int|
                0 <= k < rows@.len() ==> {
                    let cr = #[trigger] client_rows@[k];
                    cr.client == rows@[k][0] && cr.available == rows@[k][1] && cr.held
                        == rows@[k][2] && cr.total == rows@[k][3] && cr.locked == rows@[k][4]
                },
            target == seq![header_fields()] + rows@.map_values(
                |row: [&'static str; 5]| client_row_fields(row),
            ),
            target.len() == rows@.len() + 1,
            records.deep_view() == target.take(j + 1 as int),
        decreases client_rows@.len() - j,
    {
        let cr = &client_rows[j];
        let mut rec: Vec<String> = Vec::new();
        rec.push(String::from_str(cr.client));
        rec.push(String::from_str(cr.available));
        rec.push(String::from_str(cr.held));
        rec.push(String::from_str(cr.total));
        rec.push(String::from_str(cr.locked));
        proof {
            assert(rec.deep_view() =~= client_row_fields(rows@[j as int]));
            assert(target[j + 1 as int] == client_row_fields(rows@[j as int]));
        }
        let ghost recs_before = records@;
        proof {
            assert(records@.len() == records.deep_view().len());
        }
        records.push(rec);
        proof {
            assert(records@ == recs_before.push(rec));
            assert forall|k: int|
                0 <= k < records.deep_view().len() implies records.deep_view()[k] == target.take(
                j + 2 as int,
            )[k] by {
                if k < j + 1 {
                    assert(records@[k] == recs_before[k]);
                } else {
                    assert(records@[k] == rec);
                }
            }
            assert(records.deep_view() =~= target.take(j + 2 as int));
        }
        j = j + 1;
    }
    proof {
        assert(records.deep_view() =~= target);
        crate::io::lemma_header_plain();
        assert forall|k: int, l: int|
            0 <= k < records.deep_view().len() && 0 <= l < records.deep_view()[k].len()
                implies plain_field(#[trigger] records.deep_view()[k][l]) by {
            if k == 0 {
                assert(records.deep_view()[0] == header_fields());
            } else {
                assert(records.deep_view()[k] == client_row_fields(rows@[k - 1]));
            }
        }
        assert forall|k: int|
            0 <= k < records.deep_view().len() implies (#[trigger] records.deep_view()[k]).len()
                == records.deep_view()[0].len() by {
            if k > 0 {
                assert(records.deep_view()[k] == client_row_fields(rows@[k - 1]));
            }
        }
    }
    write_csv_records(&records)
}

/// Text split at every occurrence of a separator: one more segment than
/// there are separators, in order, separators dropped.
pub open spec fn split_on(s: Seq<char>, sep: char) -> Seq<Seq<char>>
    decreases s.len(),
{
    if s.len() == 0 {
        seq![Seq::<char>::empty()]
    } else if s[0] == sep {
        seq![Seq::<char>::empty()].add(split_on(s.drop_first(), sep))
    } else {
        let rest = split_on(s.drop_first(), sep);
        seq![seq![s[0]].add(rest[0])].add(rest.drop_first())
    }
}

/// A split always has at least one segment.
pub proof fn lemma_split_on_len(s: Seq<char>, sep: char)
    ensures
        split_on(s, sep).len() >= 1,
    decreases s.len(),
{
    if s.len() > 0 {
        lemma_split_on_len(s.drop_first(), sep);
    }
}

/// Splits a string at every occurrence of a separator.
fn split_string(s: &str, sep: char) -> (r: Vec<String>)
    ensures
        r@.len() == split_on(s@, sep).len(),
        forall|k: int| 0 <= k < r@.len() ==> (#[trigger] r@[k])@ == split_on(s@, sep)[k],
{
    let ghost full = s@;
    let n = s.unicode_len();
    let mut done: Vec<String> = Vec::new();
    let mut done_model: Ghost<Seq<Seq<char>>> = Ghost(Seq::<Seq<char>>::empty());
    let mut start: usize = 0;
    let mut i: usize = 0;
    proof {
        assert(full.skip(0) =~= full);
        assert(full.subrange(0, 0) =~= Seq::<char>::empty());
        lemma_split_on_len(full, sep);
        assert(split_on(full, sep) =~= Seq::<Seq<char>>::empty() + seq![
            full.subrange(0, 0).add(split_on(full.skip(0), sep)[0]),
        ] + split_on(full.skip(0), sep).drop_first());
    }
    while i < n
        invariant
            start <= i <= n,
            n == full.len(),
            full == s@,
            done@.len() == done_model@.len(),
            forall|k: int| 0 <= k < done@.len() ==> (#[trigger] done@[k])@ == done_model@[k],
            forall|k: int| start <= k < i ==> full[k] != sep,
            split_on(full, sep) == done_model@ + seq![
                full.subrange(start as int, i as int).add(split_on(full.skip(i as int), sep)[0]),
            ] + split_on(full.skip(i as int), sep).drop_first(),
        decreases n - i,
    {
        let c = s.get_char(i);
        let ghost tail = full.skip(i as int);
        proof {
            assert(tail[0] == full[i as int]);
            assert(tail.drop_first() =~= full.skip(i + 1 as int));
            lemma_split_on_len(full.skip(i + 1 as int), sep);
        }
        if c == sep {
            let seg = s.substring_char(start, i).to_owned();
            proof {
                let next = split_on(full.skip(i + 1 as int), sep);
                assert(split_on(tail, sep) == seq![Seq::<char>::empty()].add(next));
                assert(split_on(tail, sep)[0] =~= Seq::<char>::empty());
                assert(full.subrange(start as int, i as int).add(Seq::<char>::empty())
                    =~= full.subrange(start as int, i as int));
                assert(split_on(tail, sep).drop_first() =~= next);
                assert(next =~= seq![next[0]] + next.drop_first());
                assert(full.subrange(i + 1 as int, i + 1 as int) =~= Seq::<char>::empty());
                assert(split_on(full, sep) =~= (done_model@.push(
                    full.subrange(start as int, i as int),
                )) + seq![
                    full.subrange(i + 1 as int, i + 1 as int).add(next[0]),
                ] + next.drop_first());
            }
            done.push(seg);
            done_model = Ghost(done_model@.push(full.subrange(start as int, i as int)));
            start = i + 1;
        } else {
            proof {
                let next = split_on(full.skip(i + 1 as int), sep);
                assert(split_on(tail, sep) == seq![seq![tail[0]].add(next[0])].add(
                    next.drop_first(),
                ));
                assert(split_on(tail, sep)[0] == seq![full[i as int]].add(next[0]));
                assert(split_on(tail, sep).drop_first() =~= next.drop_first());
                assert(full.subrange(start as int, i as int).add(
                    seq![full[i as int]].add(next[0]),
                ) =~= full.subrange(start as int, i + 1 as int).add(next[0]));
            }
        }
        i = i + 1;
    }
    let last = s.substring_char(start, n).to_owned();
    let mut r = done;
    r.push(last);
    proof {
        assert(full.skip(n as int) =~= Seq::<char>::empty());
        assert(split_on(full.skip(n as int), sep) == seq![Seq::<char>::empty()]);
        assert(full.subrange(start as int, n as int).add(Seq::<char>::empty()) =~= full.subrange(
            start as int,
            n as int,
        ));
        assert(split_on(full, sep) =~= done_model@.push(full.subrange(start as int, n as int)));
        assert(r@.len() == split_on(full, sep).len());
    }
    r
}

/// The key of one row: the text before the first separator, or the whole
/// row when it has none.
pub open spec fn line_key(l: Seq<char>) -> Seq<char> {
    split_on(l, ',')[0]
}

/// The rows of produced output as key/row pairs: the text split into lines,
/// the header dropped, each remaining line keyed by its first field.
pub open spec fn csv_dict(s: Seq<char>) -> Seq<(Seq<char>, Seq<char>)> {
    split_on(s, '\n').drop_first().map_values(|l: Seq<char>| (line_key(l), l))
}

/// Splits produced output into key/row pairs, dropping the header line.
pub fn split_to_dict(csv: &String) -> (r: Vec<(String, String)>)
    ensures
        r@.len() == csv_dict(csv@).len(),
        forall|k: int|
            0 <= k < r@.len() ==> (#[trigger] r@[k]).0@ == csv_dict(csv@)[k].0 && r@[k].1@
                == csv_dict(csv@)[k].1,
{
    let lines = split_string(csv.as_str(), '\n');
    let ghost segs = split_on(csv@, '\n');
    let mut r: Vec<(String, String)> = Vec::new();
    let mut k: usize = 1;
    proof {
        lemma_split_on_len(csv@, '\n');
    }
    while k < lines.len()
        invariant
            1 <= k <= lines@.len(),
            lines@.len() == segs.len(),
            segs == split_on(csv@, '\n'),
            forall|j: int| 0 <= j < lines@.len() ==> (#[trigger] lines@[j])@ == segs[j],
            r@.len() == k - 1,
            forall|j: int|
                0 <= j < k - 1 ==> (#[trigger] r@[j]).0@ == line_key(segs[j + 1]) && r@[j].1@
                    == segs[j + 1],
        decreases lines@.len() - k,
    {
        let line = &lines[k];
        let parts = split_string(line.as_str(), ',');
        proof {
            lemma_split_on_len(line@, ',');
        }
        let key = parts[0].clone();
        let value = line.clone();
        r.push((key, value));
        k = k + 1;
    }
    proof {
        assert(csv_dict(csv@).len() == segs.drop_first().len());
        assert forall|j: int| 0 <= j < r@.len() implies (#[trigger] r@[j]).0@ == csv_dict(
            csv@,
        )[j].0 && r@[j].1@ == csv_dict(csv@)[j].1 by {
            assert(segs.drop_first()[j] == segs[j + 1]);
        }
    }
    r
}

/// The row stored under a key, the most recently stored winning, as the
/// underlying map-building would have it.
pub open spec fn dict_lookup(pairs: Seq<(Seq<char>, Seq<char>)>, k: Seq<char>) -> Option<Seq<char>>
    decreases pairs.len(),
{
    if pairs.len() == 0 {
        None
    } else if pairs.last().0 == k {
        Some(pairs.last().1)
    } else {
        dict_lookup(pairs.drop_last(), k)
    }
}

/// A key no pair holds is absent from the dictionary.
pub proof fn lemma_dict_lookup_absent(pairs: Seq<(Seq<char>, Seq<char>)>, k: Seq<char>)
    requires
        forall|j: int| 0 <= j < pairs.len() ==> (#[trigger] pairs[j]).0 != k,
    ensures
        dict_lookup(pairs, k) is None,
    decreases pairs.len(),
{
    if pairs.len() > 0 {
        assert(forall|j: int| 0 <= j < pairs.drop_last().len() ==> (#[trigger] pairs.drop_last(
        )[j]) == pairs[j]);
        lemma_dict_lookup_absent(pairs.drop_last(), k);
    }
}

/// The row stored under a key, walking the pairs from the most recent.
fn dict_get(
    d: &Vec<(String, String)>,
    key: &String,
    Ghost(pairs): Ghost<Seq<(Seq<char>, Seq<char>)>>,
) -> (r: Option<String>)
    requires
        pairs.len() == d@.len(),
        forall|j: int|
            0 <= j < d@.len() ==> (#[trigger] d@[j]).0@ == pairs[j].0 && d@[j].1@ == pairs[j].1,
    ensures
        r is Some <==> dict_lookup(pairs, key@) is Some,
        r matches Some(v) ==> v@ == dict_lookup(pairs, key@)->Some_0,
{
    let mut i: usize = d.len();
    proof {
        assert(pairs.take(i as int) =~= pairs);
    }
    while i > 0
        invariant
            i <= d@.len(),
            pairs.len() == d@.len(),
            forall|j: int|
                0 <= j < d@.len() ==> (#[trigger] d@[j]).0@ == pairs[j].0 && d@[j].1@
                    == pairs[j].1,
            dict_lookup(pairs, key@) == dict_lookup(pairs.take(i as int), key@),
        decreases i,
    {
        i = i - 1;
        proof {
            assert(pairs.take(i + 1 as int).last() == pairs[i as int]);
            assert(pairs.take(i + 1 as int).drop_last() =~= pairs.take(i as int));
        }
        if d[i].0.eq(key) {
            return Some(d[i].1.clone());
        }
    }
    proof {
        assert(pairs.take(0) =~= Seq::<(Seq<char>, Seq<char>)>::empty());
    }
    None
}

/// Compares two produced outputs as unordered row collections: the rows are
/// keyed by their first field, later duplicates winning, and the result is
/// whether the two keyed collections agree on every key. Row order and the
/// header line play no part.
pub fn assert_unsorted_eq(s1: &String, s2: &String) -> (r: bool)
    ensures
        r == (forall|k: Seq<char>|
            dict_lookup(csv_dict(s1@), k) == dict_lookup(csv_dict(s2@), k)),
{
    let d1 = split_to_dict(s1);
    let d2 = split_to_dict(s2);
    let ghost p1 = csv_dict(s1@);
    let ghost p2 = csv_dict(s2@);
    let mut i: usize = 0;
    while i < d1.len()
        invariant
            i <= d1@.len(),
            p1 == csv_dict(s1@),
            p2 == csv_dict(s2@),
            d1@.len() == p1.len(),
            d2@.len() == p2.len(),
            forall|j: int|
                0 <= j < d1@.len() ==> (#[trigger] d1@[j]).0@ == p1[j].0 && d1@[j].1@ == p1[j].1,
            forall|j: int|
                0 <= j < d2@.len() ==> (#[trigger] d2@[j]).0@ == p2[j].0 && d2@[j].1@ == p2[j].1,
            forall|j: int|
                0 <= j < i ==> dict_lookup(p1, (#[trigger] p1[j]).0) == dict_lookup(p2, p1[j].0),
        decreases d1@.len() - i,
    {
        let key = &d1[i].0;
        let l1 = dict_get(&d1, key, Ghost(p1));
        let l2 = dict_get(&d2, key, Ghost(p2));
        let same = match (&l1, &l2) {
            (Some(a), Some(b)) => a.eq(b),
            (None, None) => true,
            _ => false,
        };
        if !same {
            proof {
                assert(dict_lookup(p1, p1[i as int].0) != dict_lookup(p2, p1[i as int].0));
            }
            return false;
        }
        i = i + 1;
    }
    let mut i2: usize = 0;
    while i2 < d2.len()
        invariant
            i2 <= d2@.len(),
            p1 == csv_dict(s1@),
            p2 == csv_dict(s2@),
            d1@.len() == p1.len(),
            d2@.len() == p2.len(),
            forall|j: int|
                0 <= j < d1@.len() ==> (#[trigger] d1@[j]).0@ == p1[j].0 && d1@[j].1@ == p1[j].1,
            forall|j: int|
                0 <= j < d2@.len() ==> (#[trigger] d2@[j]).0@ == p2[j].0 && d2@[j].1@ == p2[j].1,
            forall|j: int|
                0 <= j < p1.len() ==> dict_lookup(p1, (#[trigger] p1[j]).0) == dict_lookup(
                    p2,
                    p1[j].0,
                ),
            forall|j: int|
                0 <= j < i2 ==> dict_lookup(p1, (#[trigger] p2[j]).0) == dict_lookup(p2, p2[j].0),
        decreases d2@.len() - i2,
    {
        let key = &d2[i2].0;
        let l1 = dict_get(&d1, key, Ghost(p1));
        let l2 = dict_get(&d2, key, Ghost(p2));
        let same = match (&l1, &l2) {
            (Some(a), Some(b)) => a.eq(b),
            (None, None) => true,
            _ => false,
        };
        if !same {
            proof {
                assert(dict_lookup(p1, p2[i2 as int].0) != dict_lookup(p2, p2[i2 as int].0));
            }
            return false;
        }
        i2 = i2 + 1;
    }
    proof {
        assert forall|k: Seq<char>| dict_lookup(p1, k) == dict_lookup(p2, k) by {
            if exists|j: int| 0 <= j < p1.len() && (#[trigger] p1[j]).0 == k {
                let j = choose|j: int| 0 <= j < p1.len() && (#[trigger] p1[j]).0 == k;
                assert(dict_lookup(p1, p1[j].0) == dict_lookup(p2, p1[j].0));
            } else if exists|j: int| 0 <= j < p2.len() && (#[trigger] p2[j]).0 == k {
                let j = choose|j: int| 0 <= j < p2.len() && (#[trigger] p2[j]).0 == k;
                assert(dict_lookup(p1, p2[j].0) == dict_lookup(p2, p2[j].0));
            } else {
                lemma_dict_lookup_absent(p1, k);
                lemma_dict_lookup_absent(p2, k);
            }
        }
    }
    true
}

} // verus!
