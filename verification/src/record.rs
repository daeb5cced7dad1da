//! The record parser: typed extraction of timer records from decoded
//! candidate substrings, and the failure descriptors collected for
//! candidates that cannot be parsed.

use vstd::prelude::*;
use crate::json::JsonField;
use crate::json::ParsedJson;
use crate::json::decode_candidate;
use crate::json::json_decode;
use crate::json::lossy_of;
use crate::json::lossy_string;
use crate::json::strip_quotes;
use crate::order::string_eq;
use crate::split::split_spec;

verus! {

/// One successfully parsed timer record.
///
/// `elapsed` is always representable as a 64-bit value and `name` is never
/// empty; `info` holds every remaining payload field (key and rendered JSON
/// text), kept only for pass-through.
pub struct TimerInfo {
    pub name: String,
    pub src_chain: String,
    pub elapsed: u128,
    pub info: Vec<(String, String)>,
}

impl TimerInfo {
    /// Structural invariant of every constructed record.
    pub open spec fn wf(self) -> bool {
        self.elapsed <= u64::MAX && self.name@.len() > 0
    }
}

/// Descriptor of a candidate substring that failed to parse: its 0-based
/// position in the stream, the untouched text, and a human-readable cause.
#[derive(Debug)]
pub struct FailedEntry {
    pub line: usize,
    pub entry: String,
    pub cause: String,
}

impl FailedEntry {
    /// Builds a descriptor from the candidate's position, raw text and cause.
    pub fn new(line: usize, entry: &str, cause: String) -> (r: Self)
        ensures
            r.line == line,
            r.entry@ == entry@,
            r.cause == cause,
    {
        Self { line, entry: entry.to_owned(), cause }
    }
}

/// The characters of `s` with every double quote removed; the literal-text
/// simplification applied to name and group-key fields.
pub open spec fn dequote(s: Seq<char>) -> Seq<char> {
    s.filter(|c: char| c != '"')
}

/// The first field of the object carrying the given key, if any.
pub open spec fn find_field(fields: Seq<JsonField>, key: Seq<char>) -> Option<JsonField>
    decreases fields.len(),
{
    if fields.len() == 0 {
        None
    } else if fields.first().key@ == key {
        Some(fields.first())
    } else {
        find_field(fields.drop_first(), key)
    }
}

/// The rendered text of the field with the given key, or `null` when the
/// field is absent (an absent field reads as the JSON null value).
pub open spec fn rendered_or_null(fields: Seq<JsonField>, key: Seq<char>) -> Seq<char> {
    match find_field(fields, key) {
        Some(f) => f.text@,
        None => "null"@,
    }
}

/// The elapsed field's 64-bit reading, if the field is present and numeric.
pub open spec fn record_elapsed(fields: Seq<JsonField>) -> Option<u64> {
    match find_field(fields, "elapsed"@) {
        Some(f) => f.num,
        None => None,
    }
}

/// The record's name: the name field's literal text with quotes stripped.
pub open spec fn record_name(fields: Seq<JsonField>) -> Seq<char> {
    dequote(rendered_or_null(fields, "name"@))
}

/// The record's group key: the src_chain field when present, else the chain
/// field, quotes stripped either way.
pub open spec fn record_chain(fields: Seq<JsonField>) -> Seq<char> {
    match find_field(fields, "src_chain"@) {
        Some(f) => dequote(f.text@),
        None => dequote(rendered_or_null(fields, "chain"@)),
    }
}

/// Whether a field survives into the metadata: all consumed field names are
/// removed, both group-key alternates included.
pub open spec fn meta_pred() -> spec_fn(JsonField) -> bool {
    |f: JsonField|
        f.key@ != "elapsed"@ && f.key@ != "name"@ && f.key@ != "src_chain"@ && f.key@ != "chain"@
}

/// The fields that survive into the metadata, in object order.
pub open spec fn residual(fields: Seq<JsonField>) -> Seq<JsonField> {
    fields.filter(meta_pred())
}

/// `meta` holds exactly the residual fields as (key, rendered text) pairs.
pub open spec fn meta_match(fields: Seq<JsonField>, meta: Seq<(String, String)>) -> bool {
    &&& meta.len() == residual(fields).len()
    &&& forall|j: int|
        0 <= j < residual(fields).len() ==> (#[trigger] meta[j]).0@ == residual(fields)[j].key@
            && meta[j].1@ == residual(fields)[j].text@
}

/// The cause reported when a candidate parses to a non-object value.
pub open spec fn object_cause(txt: Seq<char>) -> Seq<char> {
    "failed to parse Value `"@ + txt + "` to Object"@
}

/// The cause reported when the elapsed field is absent or not a u64.
pub open spec fn u64_cause(txt: Seq<char>) -> Seq<char> {
    "failed to parse Value `"@ + txt + "` to u64"@
}

/// The cause reported when the name field's text is empty.
pub open spec fn empty_name_cause() -> Seq<char> {
    "record name is empty"@
}

/// Every failure cause that the parser words itself is non-empty; a
/// candidate rejected by the object-shape check, the elapsed-field reading
/// or the name check always carries a readable reason.
pub proof fn lemma_parser_causes_nonempty(txt: Seq<char>)
    ensures
        object_cause(txt).len() > 0,
        u64_cause(txt).len() > 0,
        empty_name_cause().len() > 0,
{
    reveal_strlit("failed to parse Value `");
    reveal_strlit("record name is empty");
}

/// Whether a candidate substring parses into a timer record.
pub open spec fn cand_ok(cand: Seq<u8>) -> bool {
    match json_decode(cand) {
        ParsedJson::Fields(fields) => record_elapsed(fields@) is Some && record_name(
            fields@,
        ).len() > 0,
        _ => false,
    }
}

/// Full description of the parse of one candidate at stream position
/// `line`: either the extracted record or the exact failure descriptor.
#[verifier::opaque]
pub open spec fn entry_outcome(cand: Seq<u8>, line: int, r: Result<TimerInfo, FailedEntry>) -> bool {
    match json_decode(cand) {
        ParsedJson::Invalid(msg) => r matches Err(e) && e.line == line && e.entry@ == lossy_of(cand)
            && e.cause@ == msg@,
        ParsedJson::NotObject(txt) => r matches Err(e) && e.line == line && e.entry@ == lossy_of(
            cand,
        ) && e.cause@ == object_cause(txt@),
        ParsedJson::Fields(fields) => match record_elapsed(fields@) {
            None => r matches Err(e) && e.line == line && e.entry@ == lossy_of(cand) && e.cause@
                == u64_cause(rendered_or_null(fields@, "elapsed"@)),
            Some(ms) => if record_name(fields@).len() == 0 {
                r matches Err(e) && e.line == line && e.entry@ == lossy_of(cand) && e.cause@
                    == empty_name_cause()
            } else {
                r matches Ok(t) && t.name@ == record_name(fields@) && t.src_chain@ == record_chain(
                    fields@,
                ) && t.elapsed == ms && meta_match(fields@, t.info@)
            },
        },
    }
}

proof fn lemma_find_skip(fields: Seq<JsonField>, key: Seq<char>, i: int)
    requires
        0 <= i <= fields.len(),
        forall|p: int| 0 <= p < i ==> (#[trigger] fields[p]).key@ != key,
    ensures
        find_field(fields, key) == find_field(fields.skip(i), key),
    decreases i,
{
    if i > 0 {
        assert(fields[0].key@ != key);
        assert(forall|p: int|
            0 <= p < i - 1 ==> (#[trigger] fields.drop_first()[p]).key@ == fields[p + 1].key@);
        lemma_find_skip(fields.drop_first(), key, i - 1);
        assert(fields.drop_first().skip(i - 1) =~= fields.skip(i));
    } else {
        assert(fields.skip(0) =~= fields);
    }
}

/// Index of the first field with the given key, if any.
fn find_field_index(fields: &Vec<JsonField>, key: &String) -> (r: Option<usize>)
    ensures
        match r {
            Some(i) => 0 <= i < fields@.len() && find_field(fields@, key@) == Some(
                fields@[i as int],
            ),
            None => find_field(fields@, key@) is None,
        },
{
    let n: usize = fields.len();
    for j in 0..n
        invariant
            n == fields@.len(),
            forall|p: int| 0 <= p < j ==> (#[trigger] fields@[p]).key@ != key@,
    {
        if string_eq(&fields[j].key, key) {
            proof {
                lemma_find_skip(fields@, key@, j as int);
                assert(fields@.skip(j as int).first() == fields@[j as int]);
            }
            return Some(j);
        }
    }
    proof {
        lemma_find_skip(fields@, key@, n as int);
        assert(fields@.skip(n as int).len() == 0);
    }
    None
}

/// The metadata pairs: every residual field's key and rendered text.
fn build_meta(fields: &Vec<JsonField>) -> (r: Vec<(String, String)>)
    ensures
        meta_match(fields@, r@),
{
    let elapsed_key = String::from_str("elapsed");
    let name_key = String::from_str("name");
    let src_chain_key = String::from_str("src_chain");
    let chain_key = String::from_str("chain");
    let n: usize = fields.len();
    let mut r: Vec<(String, String)> = Vec::new();
    proof {
        reveal(Seq::filter);
        assert(fields@.take(0).filter(meta_pred()) =~= Seq::<JsonField>::empty());
    }
    for i in 0..n
        invariant
            n == fields@.len(),
            elapsed_key@ == "elapsed"@,
            name_key@ == "name"@,
            src_chain_key@ == "src_chain"@,
            chain_key@ == "chain"@,
            meta_match(fields@.take(i as int), r@),
    {
        let f = &fields[i];
        let ghost prev = r@;
        let keep = !string_eq(&f.key, &elapsed_key) && !string_eq(&f.key, &name_key) && !string_eq(
            &f.key,
            &src_chain_key,
        ) && !string_eq(&f.key, &chain_key);
        if keep {
            r.push((f.key.clone(), f.text.clone()));
        }
        proof {
            assert(keep == meta_pred()(fields@[i as int]));
            reveal(Seq::filter);
            assert(fields@.take(i as int + 1).drop_last() == fields@.take(i as int));
            assert(fields@.take(i as int + 1).last() == fields@[i as int]);
            let res = residual(fields@.take(i as int + 1));
            if keep {
                assert(res == residual(fields@.take(i as int)).push(fields@[i as int]));
            } else {
                assert(res == residual(fields@.take(i as int)));
            }
        }
    }
    assert(fields@.take(n as int) =~= fields@);
    r
}

/// Parses one candidate substring at stream position `line` into a timer
/// record, or the exact failure descriptor for it.
pub fn parse_entry(bytes: &Vec<u8>, line: usize) -> (r: Result<TimerInfo, FailedEntry>)
    ensures
        entry_outcome(bytes@, line as int, r),
        r matches Ok(t) ==> t.wf(),
        r is Ok == cand_ok(bytes@),
{
    proof {
        reveal(entry_outcome);
    }
    match decode_candidate(bytes) {
        ParsedJson::Invalid(msg) => {
            let entry = lossy_string(bytes);
            Err(FailedEntry::new(line, entry.as_str(), msg))
        },
        ParsedJson::NotObject(txt) => {
            let mut cause = String::from_str("failed to parse Value `");
            cause.append(txt.as_str());
            cause.append("` to Object");
            let entry = lossy_string(bytes);
            Err(FailedEntry::new(line, entry.as_str(), cause))
        },
        ParsedJson::Fields(fields) => {
            let elapsed_key = String::from_str("elapsed");
            let found = find_field_index(&fields, &elapsed_key);
            let num: Option<u64> = match found {
                Some(i) => fields[i].num,
                None => None,
            };
            match num {
                None => {
                    let rendered = match found {
                        Some(i) => fields[i].text.clone(),
                        None => String::from_str("null"),
                    };
                    let mut cause = String::from_str("failed to parse Value `");
                    cause.append(rendered.as_str());
                    cause.append("` to u64");
                    let entry = lossy_string(bytes);
                    Err(FailedEntry::new(line, entry.as_str(), cause))
                },
                Some(ms) => {
                    let name_key = String::from_str("name");
                    let raw_name = match find_field_index(&fields, &name_key) {
                        Some(i) => fields[i].text.clone(),
                        None => String::from_str("null"),
                    };
                    let name = strip_quotes(&raw_name);
                    if name.as_str().is_empty() {
                        let cause = String::from_str("record name is empty");
                        let entry = lossy_string(bytes);
                        Err(FailedEntry::new(line, entry.as_str(), cause))
                    } else {
                        let src_chain_key = String::from_str("src_chain");
                        let chain_key = String::from_str("chain");
                        let raw_chain = match find_field_index(&fields, &src_chain_key) {
                            Some(i) => fields[i].text.clone(),
                            None => match find_field_index(&fields, &chain_key) {
                                Some(i) => fields[i].text.clone(),
                                None => String::from_str("null"),
                            },
                        };
                        let src_chain = strip_quotes(&raw_chain);
                        let info = build_meta(&fields);
                        Ok(TimerInfo { name, src_chain, elapsed: ms as u128, info })
                    }
                },
            }
        },
    }
}

/// How many of the candidates parse into records.
pub open spec fn ok_count(cands: Seq<Seq<u8>>) -> int
    decreases cands.len(),
{
    if cands.len() == 0 {
        0
    } else {
        ok_count(cands.drop_last()) + if cand_ok(cands.last()) {
            1int
        } else {
            0int
        }
    }
}

proof fn lemma_ok_count_bounds(cands: Seq<Seq<u8>>)
    ensures
        0 <= ok_count(cands) <= cands.len(),
    decreases cands.len(),
{
    if cands.len() > 0 {
        lemma_ok_count_bounds(cands.drop_last());
    }
}

proof fn lemma_ok_count_mono(cands: Seq<Seq<u8>>, p: int, q: int)
    requires
        0 <= p <= q <= cands.len(),
    ensures
        ok_count(cands.take(p)) <= ok_count(cands.take(q)),
        q - ok_count(cands.take(q)) >= p - ok_count(cands.take(p)),
        p < q && cand_ok(cands[p]) ==> ok_count(cands.take(p)) + 1 <= ok_count(cands.take(q)),
        p < q && !cand_ok(cands[p]) ==> p - ok_count(cands.take(p)) + 1 <= q - ok_count(
            cands.take(q),
        ),
    decreases q - p,
{
    if p < q {
        lemma_ok_count_mono(cands, p + 1, q);
        assert(cands.take(p + 1).drop_last() =~= cands.take(p));
        assert(cands.take(p + 1).last() == cands[p]);
    }
}

#[verifier::rlimit(100)]
#[verifier::spinoff_prover]
proof fn lemma_parse_step(
    cands: Seq<Seq<u8>>,
    i: int,
    old_infos: Seq<TimerInfo>,
    old_failed: Seq<FailedEntry>,
    new_infos: Seq<TimerInfo>,
    new_failed: Seq<FailedEntry>,
    outcome: Result<TimerInfo, FailedEntry>,
)
    requires
        0 <= i < cands.len(),
        old_infos.len() == ok_count(cands.take(i)),
        old_failed.len() == i - ok_count(cands.take(i)),
        forall|p: int|
            0 <= p < i && cand_ok(#[trigger] cands[p]) ==> entry_outcome(
                cands[p],
                p,
                Ok(old_infos[ok_count(cands.take(p))]),
            ),
        forall|p: int|
            0 <= p < i && !cand_ok(#[trigger] cands[p]) ==> entry_outcome(
                cands[p],
                p,
                Err(old_failed[p - ok_count(cands.take(p))]),
            ),
        entry_outcome(cands[i], i, outcome),
        outcome is Ok == cand_ok(cands[i]),
        new_infos == if cand_ok(cands[i]) {
            old_infos.push(outcome->Ok_0)
        } else {
            old_infos
        },
        new_failed == if cand_ok(cands[i]) {
            old_failed
        } else {
            old_failed.push(outcome->Err_0)
        },
    ensures
        new_infos.len() == ok_count(cands.take(i + 1)),
        new_failed.len() == (i + 1) - ok_count(cands.take(i + 1)),
        forall|p: int|
            0 <= p < i + 1 && cand_ok(#[trigger] cands[p]) ==> entry_outcome(
                cands[p],
                p,
                Ok(new_infos[ok_count(cands.take(p))]),
            ),
        forall|p: int|
            0 <= p < i + 1 && !cand_ok(#[trigger] cands[p]) ==> entry_outcome(
                cands[p],
                p,
                Err(new_failed[p - ok_count(cands.take(p))]),
            ),
{
    assert(cands.take(i + 1).drop_last() =~= cands.take(i));
    assert(cands.take(i + 1).last() == cands[i]);
    assert forall|p: int|
        0 <= p < i + 1 && cand_ok(#[trigger] cands[p]) implies entry_outcome(
        cands[p],
        p,
        Ok(new_infos[ok_count(cands.take(p))]),
    ) by {
        if p < i {
            lemma_ok_count_mono(cands, p, i);
            lemma_ok_count_bounds(cands.take(p));
            assert(new_infos[ok_count(cands.take(p))] == old_infos[ok_count(cands.take(p))]);
        } else {
            assert(new_infos[ok_count(cands.take(p))] == outcome->Ok_0);
        }
    }
    assert forall|p: int|
        0 <= p < i + 1 && !cand_ok(#[trigger] cands[p]) implies entry_outcome(
        cands[p],
        p,
        Err(new_failed[p - ok_count(cands.take(p))]),
    ) by {
        if p < i {
            lemma_ok_count_mono(cands, p, i);
            lemma_ok_count_bounds(cands.take(p));
            assert(new_failed[p - ok_count(cands.take(p))] == old_failed[p - ok_count(
                cands.take(p),
            )]);
        } else {
            assert(new_failed[p - ok_count(cands.take(p))] == outcome->Err_0);
        }
    }
}

/// Splits the raw stream and parses every candidate in order: the records
/// of the candidates that parse, and a failure descriptor for each one that
/// does not, both in stream order, the descriptor's line being the
/// candidate's 0-based position.
pub fn parse_records(input: &[u8]) -> (r: (Vec<TimerInfo>, Vec<FailedEntry>))
    ensures
        ({
            let cands = split_spec(input@);
            &&& r.0@.len() == ok_count(cands)
            &&& r.1@.len() == cands.len() - ok_count(cands)
            &&& forall|i: int|
                0 <= i < cands.len() && cand_ok(#[trigger] cands[i]) ==> entry_outcome(
                    cands[i],
                    i,
                    Ok(r.0@[ok_count(cands.take(i))]),
                )
            &&& forall|i: int|
                0 <= i < cands.len() && !cand_ok(#[trigger] cands[i]) ==> entry_outcome(
                    cands[i],
                    i,
                    Err(r.1@[i - ok_count(cands.take(i))]),
                )
            &&& forall|k: int| 0 <= k < r.0@.len() ==> (#[trigger] r.0@[k]).wf()
        }),
{
    let cands = crate::split::split_records(input);
    let ghost gcands = split_spec(input@);
    let n: usize = cands.len();
    let mut infos: Vec<TimerInfo> = Vec::new();
    let mut failed: Vec<FailedEntry> = Vec::new();
    assert(gcands.take(0) =~= Seq::<Seq<u8>>::empty());
    for i in 0..n
        invariant
            n == cands@.len(),
            n == gcands.len(),
            gcands == split_spec(input@),
            forall|j: int| 0 <= j < n ==> (#[trigger] cands@[j])@ == gcands[j],
            infos@.len() == ok_count(gcands.take(i as int)),
            failed@.len() == i - ok_count(gcands.take(i as int)),
            forall|p: int|
                0 <= p < i && cand_ok(#[trigger] gcands[p]) ==> entry_outcome(
                    gcands[p],
                    p,
                    Ok(infos@[ok_count(gcands.take(p))]),
                ),
            forall|p: int|
                0 <= p < i && !cand_ok(#[trigger] gcands[p]) ==> entry_outcome(
                    gcands[p],
                    p,
                    Err(failed@[p - ok_count(gcands.take(p))]),
                ),
            forall|k: int| 0 <= k < infos@.len() ==> (#[trigger] infos@[k]).wf(),
    {
        proof {
            assert(gcands.take(i as int + 1).drop_last() =~= gcands.take(i as int));
            assert(gcands.take(i as int + 1).last() == gcands[i as int]);
            lemma_ok_count_bounds(gcands.take(i as int));
        }
        let ghost old_infos = infos@;
        let ghost old_failed = failed@;
        let outcome = parse_entry(&cands[i], i);
        let ghost goutcome = outcome;
        match outcome {
            Ok(t) => {
                infos.push(t);
            },
            Err(e) => {
                failed.push(e);
            },
        }
        proof {
            lemma_parse_step(gcands, i as int, old_infos, old_failed, infos@, failed@, goutcome);
        }
    }
    assert(gcands.take(n as int) =~= gcands);
    (infos, failed)
}

} // verus!
