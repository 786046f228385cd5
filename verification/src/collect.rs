//! The collector: orders captured records deterministically and emits the
//! aggregate compilation database.  Records are sorted by source-file path,
//! with the working directory and the command line as tie breakers, so the
//! output is one and the same whatever order the cache files were
//! enumerated in.

use vstd::prelude::*;

use crate::records::{CapturedInvocation, RecordView, decode_record, encode_record};

verus! {

// ---------------------------------------------------------------------------
// Ordering
// ---------------------------------------------------------------------------
/// Lexicographic order on character sequences, by code point, a prefix
/// before its extensions.
pub open spec fn lex_le(a: Seq<char>, b: Seq<char>) -> bool
    decreases a.len(),
{
    if a.len() == 0 {
        true
    } else if b.len() == 0 {
        false
    } else if a[0] < b[0] {
        true
    } else if b[0] < a[0] {
        false
    } else {
        lex_le(a.drop_first(), b.drop_first())
    }
}

proof fn lemma_lex_le_total(a: Seq<char>, b: Seq<char>)
    ensures
        lex_le(a, b) || lex_le(b, a),
    decreases a.len(),
{
    if a.len() > 0 && b.len() > 0 && a[0] == b[0] {
        lemma_lex_le_total(a.drop_first(), b.drop_first());
    }
}

proof fn lemma_lex_le_antisymmetric(a: Seq<char>, b: Seq<char>)
    requires
        lex_le(a, b),
        lex_le(b, a),
    ensures
        a == b,
    decreases a.len(),
{
    if a.len() == 0 {
        assert(b.len() == 0);
        assert(a =~= b);
    } else {
        assert(b.len() > 0);
        assert(a[0] == b[0]);
        lemma_lex_le_antisymmetric(a.drop_first(), b.drop_first());
        assert forall|i: int| 0 <= i < a.len() implies a[i] == b[i] by {
            if i > 0 {
                assert(a[i] == a.drop_first()[i - 1]);
                assert(b[i] == b.drop_first()[i - 1]);
            }
        }
        assert(a =~= b);
    }
}

proof fn lemma_lex_le_reflexive(a: Seq<char>)
    ensures
        lex_le(a, a),
    decreases a.len(),
{
    if a.len() > 0 {
        lemma_lex_le_reflexive(a.drop_first());
    }
}

proof fn lemma_lex_le_transitive(a: Seq<char>, b: Seq<char>, c: Seq<char>)
    requires
        lex_le(a, b),
        lex_le(b, c),
    ensures
        lex_le(a, c),
    decreases a.len(),
{
    if a.len() == 0 {
    } else {
        assert(b.len() > 0);
        assert(c.len() > 0);
        if a[0] == b[0] && b[0] == c[0] {
            lemma_lex_le_transitive(a.drop_first(), b.drop_first(), c.drop_first());
        }
    }
}

/// The collector's total order on records: by source file, then working
/// directory, then command line.
pub open spec fn record_le(a: RecordView, b: RecordView) -> bool {
    if a.file == b.file {
        if a.directory == b.directory {
            lex_le(a.command, b.command)
        } else {
            lex_le(a.directory, b.directory)
        }
    } else {
        lex_le(a.file, b.file)
    }
}

pub proof fn lemma_record_le_total(a: RecordView, b: RecordView)
    ensures
        record_le(a, b) || record_le(b, a),
{
    lemma_lex_le_total(a.file, b.file);
    lemma_lex_le_total(a.directory, b.directory);
    lemma_lex_le_total(a.command, b.command);
}

pub proof fn lemma_record_le_antisymmetric(a: RecordView, b: RecordView)
    requires
        record_le(a, b),
        record_le(b, a),
    ensures
        a == b,
{
    if a.file == b.file {
        if a.directory == b.directory {
            lemma_lex_le_antisymmetric(a.command, b.command);
        } else {
            lemma_lex_le_antisymmetric(a.directory, b.directory);
        }
    } else {
        lemma_lex_le_antisymmetric(a.file, b.file);
    }
}

pub proof fn lemma_record_le_transitive(a: RecordView, b: RecordView, c: RecordView)
    requires
        record_le(a, b),
        record_le(b, c),
    ensures
        record_le(a, c),
{
    // order the files pairwise, an equal pair by reflexivity
    if a.file == b.file {
        lemma_lex_le_reflexive(a.file);
    }
    if b.file == c.file {
        lemma_lex_le_reflexive(b.file);
    }
    assert(lex_le(a.file, b.file));
    assert(lex_le(b.file, c.file));
    if a.file == c.file {
        // the middle file equals the outer two
        lemma_lex_le_antisymmetric(a.file, b.file);
        if a.directory == b.directory {
            lemma_lex_le_reflexive(a.directory);
        }
        if b.directory == c.directory {
            lemma_lex_le_reflexive(b.directory);
        }
        assert(lex_le(a.directory, b.directory));
        assert(lex_le(b.directory, c.directory));
        if a.directory == c.directory {
            lemma_lex_le_antisymmetric(a.directory, b.directory);
            lemma_lex_le_transitive(a.command, b.command, c.command);
        } else {
            lemma_lex_le_transitive(a.directory, b.directory, c.directory);
        }
    } else {
        lemma_lex_le_transitive(a.file, b.file, c.file);
    }
}

/// Is a record list in the collector's order?
pub open spec fn records_sorted(rs: Seq<RecordView>) -> bool {
    forall|i: int, j: int|
        #![trigger rs[i], rs[j]]
        0 <= i < j < rs.len() ==> record_le(rs[i], rs[j])
}

/// Collector determinism: a multiset of records has exactly one sorted
/// arrangement, so the collector's output does not depend on the order the
/// cache files were read in.
pub proof fn lemma_sorted_unique(a: Seq<RecordView>, b: Seq<RecordView>)
    requires
        records_sorted(a),
        records_sorted(b),
        a.to_multiset() == b.to_multiset(),
    ensures
        a == b,
    decreases a.len(),
{
    broadcast use vstd::seq_lib::group_to_multiset_ensures;

    assert(a.to_multiset().len() == a.len());
    assert(b.to_multiset().len() == b.len());
    if a.len() == 0 {
        assert(a =~= b);
    } else {
        assert(b.len() > 0);
        // each head is a member of the other sequence, so the heads agree
        assert(a.to_multiset().count(a[0]) > 0);
        assert(b.to_multiset().contains(a[0]));
        assert(b.contains(a[0]));
        let ja = choose|j: int| 0 <= j < b.len() && b[j] == a[0];
        assert(record_le(b[0], a[0])) by {
            if ja > 0 {
                assert(record_le(b[0], b[ja]));
            } else {
                lemma_record_le_total(b[0], a[0]);
            }
        }
        assert(b.to_multiset().count(b[0]) > 0);
        assert(a.to_multiset().contains(b[0]));
        assert(a.contains(b[0]));
        let jb = choose|j: int| 0 <= j < a.len() && a[j] == b[0];
        assert(record_le(a[0], b[0])) by {
            if jb > 0 {
                assert(record_le(a[0], a[jb]));
            } else {
                lemma_record_le_total(a[0], b[0]);
            }
        }
        lemma_record_le_antisymmetric(a[0], b[0]);
        // drop the equal heads and recurse
        assert(a.remove(0) =~= a.drop_first());
        assert(b.remove(0) =~= b.drop_first());
        assert(a.drop_first().to_multiset() == a.to_multiset().remove(a[0]));
        assert(b.drop_first().to_multiset() == b.to_multiset().remove(b[0]));
        assert forall|i: int, j: int| 0 <= i < j < a.drop_first().len() implies record_le(
            a.drop_first()[i],
            a.drop_first()[j],
        ) by {
            assert(a.drop_first()[i] == a[i + 1]);
            assert(a.drop_first()[j] == a[j + 1]);
        }
        assert forall|i: int, j: int| 0 <= i < j < b.drop_first().len() implies record_le(
            b.drop_first()[i],
            b.drop_first()[j],
        ) by {
            assert(b.drop_first()[i] == b[i + 1]);
            assert(b.drop_first()[j] == b[j + 1]);
        }
        lemma_sorted_unique(a.drop_first(), b.drop_first());
        assert forall|i: int| 0 <= i < a.len() implies a[i] == b[i] by {
            if i > 0 {
                assert(a[i] == a.drop_first()[i - 1]);
                assert(b[i] == b.drop_first()[i - 1]);
            }
        }
        assert(a =~= b);
    }
}

// ---------------------------------------------------------------------------
// Sorting
// ---------------------------------------------------------------------------
fn lex_le_exec(a: &Vec<char>, b: &Vec<char>) -> (r: bool)
    ensures
        r == lex_le(a@, b@),
{
    let mut i: usize = 0;
    proof {
        assert(a@.skip(0) =~= a@);
        assert(b@.skip(0) =~= b@);
    }
    while i < a.len() && i < b.len()
        invariant
            i <= a.len(),
            i <= b.len(),
            lex_le(a@, b@) == lex_le(a@.skip(i as int), b@.skip(i as int)),
        decreases a.len() - i,
    {
        proof {
            assert(a@.skip(i as int)[0] == a@[i as int]);
            assert(b@.skip(i as int)[0] == b@[i as int]);
            assert(a@.skip(i as int).drop_first() =~= a@.skip(i as int + 1));
            assert(b@.skip(i as int).drop_first() =~= b@.skip(i as int + 1));
        }
        if a[i] < b[i] {
            return true;
        }
        if b[i] < a[i] {
            return false;
        }
        i = i + 1;
    }
    proof {
        if i == a.len() {
            assert(a@.skip(i as int) =~= Seq::<char>::empty());
        } else {
            assert(b@.skip(i as int) =~= Seq::<char>::empty());
            assert(a@.skip(i as int).len() > 0);
        }
    }
    i == a.len()
}

fn record_le_exec(a: &CapturedInvocation, b: &CapturedInvocation) -> (r: bool)
    ensures
        r == record_le(a@, b@),
{
    let af = crate::text::chars_of(a.file.as_str());
    let bf = crate::text::chars_of(b.file.as_str());
    if crate::text::chars_eq(&af, &bf) {
        let ad = crate::text::chars_of(a.directory.as_str());
        let bd = crate::text::chars_of(b.directory.as_str());
        if crate::text::chars_eq(&ad, &bd) {
            let ac = crate::text::chars_of(a.command.as_str());
            let bc = crate::text::chars_of(b.command.as_str());
            lex_le_exec(&ac, &bc)
        } else {
            lex_le_exec(&ad, &bd)
        }
    } else {
        lex_le_exec(&af, &bf)
    }
}

/// Inserts `v` into a sorted record list, keeping it sorted.
fn insert_sorted(out: &mut Vec<CapturedInvocation>, v: CapturedInvocation)
    requires
        records_sorted(old(out).deep_view()),
    ensures
        records_sorted(final(out).deep_view()),
        final(out).deep_view().to_multiset() == old(out).deep_view().to_multiset().insert(v@),
{
    broadcast use vstd::seq_lib::group_to_multiset_ensures;

    let ghost dv = out.deep_view();
    let mut pos: usize = out.len();
    while pos > 0 && !record_le_exec(&out[pos - 1], &v)
        invariant
            pos <= out.len(),
            out.deep_view() == dv,
            forall|m: int| pos <= m < dv.len() ==> record_le(v@, #[trigger] dv[m]),
        decreases pos,
    {
        proof {
            assert(out.deep_view()[pos - 1] == out@[pos - 1]@);
            lemma_record_le_total(dv[pos - 1], v@);
        }
        pos = pos - 1;
    }
    proof {
        if pos > 0 {
            assert(out.deep_view()[pos - 1] == out@[pos - 1]@);
        }
        assert forall|m: int| 0 <= m < pos implies record_le(#[trigger] dv[m], v@) by {
            if m < pos - 1 {
                assert(record_le(dv[m], dv[pos - 1]));
                lemma_record_le_transitive(dv[m], dv[pos - 1], v@);
            }
        }
    }
    let ghost vv = v@;
    out.insert(pos, v);
    proof {
        let dv2 = out.deep_view();
        assert(out@ == old(out)@.insert(pos as int, v));
        old(out)@.insert_ensures(pos as int, v);
        assert forall|m: int| 0 <= m < dv2.len() implies dv2[m] == dv.insert(pos as int, vv)[m] by {
            dv.insert_ensures(pos as int, vv);
            assert(dv2[m] == out@[m]@);
            if m < pos {
                assert(out@[m] == old(out)@[m]);
            } else if m == pos {
                assert(out@[m] == v);
            } else {
                assert(out@[m] == old(out)@[m - 1]);
            }
        }
        assert(dv2 =~= dv.insert(pos as int, vv));
        dv.insert_ensures(pos as int, vv);
        // sortedness of the new arrangement
        assert forall|i: int, j: int|
            #![trigger dv2[i], dv2[j]]
            0 <= i < j < dv2.len() implies record_le(dv2[i], dv2[j]) by {
            if i < pos && j < pos {
                assert(record_le(dv[i], dv[j]));
            } else if i < pos && j == pos {
                assert(record_le(dv[i], vv));
            } else if i < pos && j > pos {
                assert(record_le(dv[i], dv[j - 1]));
            } else if i == pos && j > pos {
                assert(record_le(vv, dv[j - 1]));
            } else if i > pos && j > pos {
                assert(record_le(dv[i - 1], dv[j - 1]));
            }
        }
        // the new multiset is the old one plus the inserted record
        assert(dv2.remove(pos as int) =~= dv);
        assert(dv2.remove(pos as int).to_multiset() == dv2.to_multiset().remove(dv2[pos as int]));
        assert(dv2[pos as int] == vv);
        assert(dv2.contains(vv));
        assert(dv2.to_multiset().count(vv) > 0);
        assert(dv2.to_multiset() =~= dv.to_multiset().insert(vv));
    }
}

/// Orders records by source file, then directory, then command.  The
/// result is sorted in the collector's order and holds exactly the given
/// records.
pub fn sort_records(records: Vec<CapturedInvocation>) -> (out: Vec<CapturedInvocation>)
    ensures
        records_sorted(out.deep_view()),
        out.deep_view().to_multiset() == records.deep_view().to_multiset(),
{
    broadcast use vstd::seq_lib::group_to_multiset_ensures;

    let ghost total = records.deep_view().to_multiset();
    let mut rest = records;
    let mut out: Vec<CapturedInvocation> = Vec::new();
    proof {
        assert(out.deep_view() =~~= Seq::<RecordView>::empty());
        assert(out.deep_view().to_multiset().add(rest.deep_view().to_multiset())
            =~= rest.deep_view().to_multiset());
    }
    while rest.len() > 0
        invariant
            records_sorted(out.deep_view()),
            out.deep_view().to_multiset().add(rest.deep_view().to_multiset()) == total,
        decreases rest.len(),
    {
        let ghost rest_before = rest.deep_view();
        let v = match rest.pop() {
            Some(v) => v,
            None => {
                proof {
                    assert(false);
                }
                return out;
            },
        };
        proof {
            assert(rest.deep_view() =~~= rest_before.drop_last());
            assert(rest_before.drop_last().push(rest_before.last()) =~~= rest_before);
            assert(rest_before.last() == v@);
            assert(rest_before =~~= rest.deep_view().push(v@));
            vstd::seq_lib::to_multiset_build::<RecordView>(rest.deep_view(), v@);
            assert(rest.deep_view().push(v@).to_multiset() == rest.deep_view().to_multiset().insert(
                v@,
            ));
        }
        let ghost out_before = out.deep_view().to_multiset();
        insert_sorted(&mut out, v);
        proof {
            assert(out.deep_view().to_multiset().add(rest.deep_view().to_multiset()) =~= total);
        }
    }
    proof {
        assert(rest.deep_view() =~~= Seq::<RecordView>::empty());
        assert(rest.deep_view().to_multiset().len() == 0);
        assert(out.deep_view().to_multiset() =~= total);
    }
    out
}

// ---------------------------------------------------------------------------
// Collection
// ---------------------------------------------------------------------------
/// The collector's error: the cache record at `index` did not parse.  One
/// malformed record fails the whole collection, since a corrupt aggregate
/// is worse than a failed run.
#[derive(Debug)]
pub struct MalformedRecord {
    pub index: usize,
}

/// Decodes every record text, in order.  Fails on the first malformed one.
pub fn parse_records(texts: &Vec<String>) -> (r: Result<Vec<CapturedInvocation>, MalformedRecord>)
    ensures
        match r {
            Ok(records) => {
                &&& records@.len() == texts@.len()
                &&& forall|k: int|
                    0 <= k < texts@.len() ==> decode_record(texts.deep_view()[k]) == Some(
                        #[trigger] records.deep_view()[k],
                    )
            },
            Err(e) => {
                &&& e.index < texts@.len()
                &&& decode_record(texts.deep_view()[e.index as int]) is None
                &&& forall|k: int|
                    0 <= k < e.index ==> #[trigger] decode_record(texts.deep_view()[k]) is Some
            },
        },
{
    let mut records: Vec<CapturedInvocation> = Vec::new();
    let mut i: usize = 0;
    while i < texts.len()
        invariant
            i <= texts.len(),
            records@.len() == i,
            forall|k: int|
                0 <= k < i ==> decode_record(texts.deep_view()[k]) == Some(
                    #[trigger] records.deep_view()[k],
                ),
        decreases texts.len() - i,
    {
        proof {
            assert(texts.deep_view()[i as int] == texts@[i as int]@);
        }
        match CapturedInvocation::from_json(texts[i].as_str()) {
            Some(c) => {
                let ghost before = records.deep_view();
                records.push(c);
                proof {
                    assert(records.deep_view() =~~= before.push(c@));
                }
            },
            None => {
                proof {
                    assert forall|k: int| 0 <= k < i implies #[trigger] decode_record(
                        texts.deep_view()[k],
                    ) is Some by {
                        assert(decode_record(texts.deep_view()[k]) == Some(
                            records.deep_view()[k],
                        ));
                    }
                }
                return Err(MalformedRecord { index: i });
            },
        }
        i = i + 1;
    }
    Ok(records)
}

/// The record texts joined with commas.
pub open spec fn join_objects(rs: Seq<RecordView>) -> Seq<char>
    decreases rs.len(),
{
    if rs.len() == 0 {
        Seq::empty()
    } else if rs.len() == 1 {
        encode_record(rs[0])
    } else {
        encode_record(rs[0]) + seq![','] + join_objects(rs.drop_first())
    }
}

/// The compilation database: a JSON array of the records, in the order
/// given.
pub open spec fn spec_database(rs: Seq<RecordView>) -> Seq<char> {
    seq!['['] + join_objects(rs) + seq![']']
}

proof fn lemma_join_objects_push(rs: Seq<RecordView>, x: RecordView)
    ensures
        rs.len() == 0 ==> join_objects(rs.push(x)) == encode_record(x),
        rs.len() > 0 ==> join_objects(rs.push(x)) == join_objects(rs) + seq![','] + encode_record(
            x,
        ),
    decreases rs.len(),
{
    if rs.len() == 0 {
        assert(rs.push(x) =~~= seq![x]);
    } else {
        assert(rs.push(x).drop_first() =~~= rs.drop_first().push(x));
        assert(rs.push(x)[0] == rs[0]);
        lemma_join_objects_push(rs.drop_first(), x);
        if rs.len() == 1 {
            assert(join_objects(rs.push(x)) == encode_record(rs[0]) + seq![','] + encode_record(x));
        } else {
            assert(join_objects(rs.push(x)) == encode_record(rs[0]) + seq![','] + (join_objects(
                rs.drop_first(),
            ) + seq![','] + encode_record(x)));
            assert(encode_record(rs[0]) + seq![','] + (join_objects(rs.drop_first()) + seq![',']
                + encode_record(x)) =~= (encode_record(rs[0]) + seq![','] + join_objects(
                rs.drop_first(),
            )) + seq![','] + encode_record(x));
        }
    }
}

/// Writes the records, in the order given, as the JSON array of the
/// compilation database.
pub fn encode_database(records: &Vec<CapturedInvocation>) -> (out: String)
    ensures
        out@ == spec_database(records.deep_view()),
{
    let mut v: Vec<char> = Vec::new();
    v.push('[');
    let ghost mut done: Seq<RecordView> = Seq::empty();
    let mut i: usize = 0;
    proof {
        assert(v@ =~= seq!['['] + join_objects(done));
    }
    while i < records.len()
        invariant
            i <= records.len(),
            done == records.deep_view().take(i as int),
            v@ == seq!['['] + join_objects(done),
        decreases records.len() - i,
    {
        proof {
            assert(records.deep_view()[i as int] == records@[i as int]@);
            lemma_join_objects_push(done, records.deep_view()[i as int]);
        }
        if i > 0 {
            v.push(',');
            proof {
                assert(done.len() > 0);
            }
        } else {
            proof {
                assert(done.len() == 0);
            }
        }
        let text = records[i].to_json();
        let chars = crate::text::chars_of(text.as_str());
        crate::text::append_chars(&mut v, &chars);
        proof {
            done = done.push(records.deep_view()[i as int]);
            assert(records.deep_view().take(i as int + 1) =~~= records.deep_view().take(
                i as int,
            ).push(records.deep_view()[i as int]));
            if done.len() == 1 {
                assert(v@ =~= seq!['['] + join_objects(done));
            } else {
                assert(v@ =~= seq!['['] + join_objects(done));
            }
        }
        i = i + 1;
    }
    v.push(']');
    proof {
        assert(records.deep_view().take(records@.len() as int) =~~= records.deep_view());
        assert(v@ =~= spec_database(records.deep_view()));
    }
    crate::text::string_from_chars(&v)
}

/// The records a list of well-formed cache texts holds.
pub open spec fn decoded_records(texts: Seq<Seq<char>>) -> Seq<RecordView> {
    texts.map_values(|t: Seq<char>| decode_record(t).unwrap())
}

/// The whole collection step on the cache texts: decode every record, sort,
/// and emit the database.  The output is the database of the one sorted
/// arrangement of the decoded records; a malformed record fails the whole
/// run, naming the first offender.
pub fn collect_database(texts: &Vec<String>) -> (r: Result<String, MalformedRecord>)
    ensures
        match r {
            Ok(out) => {
                &&& forall|k: int|
                    0 <= k < texts@.len() ==> #[trigger] decode_record(texts.deep_view()[k]) is Some
                &&& exists|rs: Seq<RecordView>|
                    {
                        &&& #[trigger] records_sorted(rs)
                        &&& rs.to_multiset() == decoded_records(texts.deep_view()).to_multiset()
                        &&& out@ == spec_database(rs)
                    }
            },
            Err(e) => {
                &&& e.index < texts@.len()
                &&& decode_record(texts.deep_view()[e.index as int]) is None
                &&& forall|k: int|
                    0 <= k < e.index ==> #[trigger] decode_record(texts.deep_view()[k]) is Some
            },
        },
{
    let records = match parse_records(texts) {
        Ok(records) => records,
        Err(e) => {
            return Err(e);
        },
    };
    let ghost recdv = records.deep_view();
    proof {
        assert(recdv =~~= decoded_records(texts.deep_view()));
        assert forall|k: int| 0 <= k < texts@.len() implies #[trigger] decode_record(
            texts.deep_view()[k],
        ) is Some by {
            assert(decode_record(texts.deep_view()[k]) == Some(recdv[k]));
        }
    }
    let sorted = sort_records(records);
    let out = encode_database(&sorted);
    proof {
        let rs = sorted.deep_view();
        assert(records_sorted(rs) && rs.to_multiset() == decoded_records(
            texts.deep_view(),
        ).to_multiset() && out@ == spec_database(rs));
    }
    Ok(out)
}

} // verus!
