//! Loading one file's text into its ordered sequence of samples.
//!
//! The text splits into lines on the newline byte; only data lines are
//! kept, and each is handed to the record parser in file order. The
//! first line that fails to parse fails the whole load.

use vstd::prelude::*;
use crate::record::{parse_record, parse_record_spec, ParseError, Sample};
use crate::split::{split_byte, split_on, views_of};

verus! {

/// A data line: one that starts with the year prefix `"20"`. This is
/// the loader's named heuristic for skipping header and comment lines;
/// lines from years outside 2000-2099 are dropped with them.
pub open spec fn is_data_line_spec(l: Seq<u8>) -> bool {
    l.len() >= 2 && l[0] == 50 && l[1] == 48
}

/// Decides `is_data_line_spec`.
pub fn is_data_line(line: &Vec<u8>) -> (r: bool)
    ensures
        r == is_data_line_spec(line@),
{
    line.len() >= 2 && line[0] == 50 && line[1] == 48
}

pub open spec fn data_pred() -> spec_fn(Seq<u8>) -> bool {
    |l: Seq<u8>| is_data_line_spec(l)
}

/// The lines of a file's text.
pub open spec fn lines_of(content: Seq<u8>) -> Seq<Seq<u8>> {
    split_on(content, 10)
}

/// The data lines of a file's text, in file order.
pub open spec fn data_lines_of(content: Seq<u8>) -> Seq<Seq<u8>> {
    lines_of(content).filter(data_pred())
}

/// Parsing a run of lines: the samples, or the first line's failure.
pub open spec fn parse_all(lines: Seq<Seq<u8>>) -> Result<Seq<Sample>, ParseError>
    decreases lines.len(),
{
    if lines.len() == 0 {
        Ok(Seq::empty())
    } else {
        match parse_record_spec(lines[0]) {
            Err(e) => Err(e),
            Ok(s) => match parse_all(lines.skip(1)) {
                Err(e) => Err(e),
                Ok(rest) => Ok(seq![s] + rest),
            },
        }
    }
}

/// What loading a file's text yields.
pub open spec fn load_spec(content: Seq<u8>) -> Result<Seq<Sample>, ParseError> {
    parse_all(data_lines_of(content))
}

/// Parsing distributes over a split of the line run, provided the
/// prefix parses.
pub proof fn lemma_parse_all_split(lines: Seq<Seq<u8>>, i: int)
    requires
        0 <= i <= lines.len(),
        parse_all(lines.take(i)) is Ok,
    ensures
        parse_all(lines) == match parse_all(lines.skip(i)) {
            Ok(rest) => Ok::<Seq<Sample>, ParseError>(parse_all(lines.take(i))->Ok_0 + rest),
            Err(e) => Err::<Seq<Sample>, ParseError>(e),
        },
    decreases i,
{
    if i == 0 {
        assert(lines.take(0) =~= Seq::<Seq<u8>>::empty());
        assert(lines.skip(0) =~= lines);
        if parse_all(lines) is Ok {
            assert(Seq::<Sample>::empty() + parse_all(lines)->Ok_0 =~= parse_all(lines)->Ok_0);
        }
    } else {
        let pre = lines.take(i);
        assert(pre[0] == lines[0]);
        assert(pre.skip(1) =~= lines.skip(1).take(i - 1));
        assert(lines.skip(1).skip(i - 1) =~= lines.skip(i));
        lemma_parse_all_split(lines.skip(1), i - 1);
        let s0 = parse_record_spec(lines[0])->Ok_0;
        match parse_all(lines.skip(i)) {
            Ok(rest) => {
                assert(seq![s0] + (parse_all(lines.skip(1).take(i - 1))->Ok_0 + rest) =~= (seq![s0]
                    + parse_all(pre.skip(1))->Ok_0) + rest);
            },
            Err(_) => {},
        }
    }
}

/// Parsing one more line extends the samples, or surfaces its failure.
pub proof fn lemma_parse_all_push(lines: Seq<Seq<u8>>, l: Seq<u8>)
    requires
        parse_all(lines) is Ok,
    ensures
        parse_all(lines.push(l)) == match parse_record_spec(l) {
            Ok(s) => Ok::<Seq<Sample>, ParseError>(parse_all(lines)->Ok_0.push(s)),
            Err(e) => Err::<Seq<Sample>, ParseError>(e),
        },
{
    let whole = lines.push(l);
    assert(whole.take(lines.len() as int) =~= lines);
    assert(whole.skip(lines.len() as int) =~= seq![l]);
    lemma_parse_all_split(whole, lines.len() as int);
    assert(seq![l].skip(1) =~= Seq::<Seq<u8>>::empty());
    assert(seq![l][0] == l);
    assert(parse_all(seq![l].skip(1)) == Ok::<Seq<Sample>, ParseError>(Seq::<Sample>::empty()));
    match parse_record_spec(l) {
        Ok(s) => {
            assert(parse_all(seq![l]) == Ok::<Seq<Sample>, ParseError>(
                seq![s] + Seq::<Sample>::empty(),
            ));
            assert(seq![s] + Seq::<Sample>::empty() =~= seq![s]);
            assert(parse_all(lines)->Ok_0 + seq![s] =~= parse_all(lines)->Ok_0.push(s));
        },
        Err(_) => {},
    }
}

/// A run of lines parses as a whole exactly when every line parses on
/// its own, and then yields one sample per line, in order.
pub proof fn lemma_parse_all_ok(lines: Seq<Seq<u8>>)
    ensures
        parse_all(lines) is Ok <==> (forall|k: int|
            0 <= k < lines.len() ==> parse_record_spec(#[trigger] lines[k]) is Ok),
        parse_all(lines) is Ok ==> {
            &&& parse_all(lines)->Ok_0.len() == lines.len()
            &&& forall|k: int|
                0 <= k < lines.len() ==> parse_all(lines)->Ok_0[k] == parse_record_spec(
                    #[trigger] lines[k],
                )->Ok_0
        },
    decreases lines.len(),
{
    if lines.len() > 0 {
        lemma_parse_all_ok(lines.skip(1));
        assert forall|k: int| 0 <= k < lines.skip(1).len() implies #[trigger] lines.skip(1)[k]
            == lines[k + 1] by {}
        if parse_all(lines) is Ok {
            assert(parse_record_spec(lines[0]) is Ok);
            assert(parse_all(lines.skip(1)) is Ok);
            let s0 = parse_record_spec(lines[0])->Ok_0;
            let rest = parse_all(lines.skip(1))->Ok_0;
            assert(parse_all(lines)->Ok_0 == seq![s0] + rest);
            assert forall|k: int| 0 <= k < lines.len() implies parse_all(lines)->Ok_0[k]
                == parse_record_spec(#[trigger] lines[k])->Ok_0 by {
                if k > 0 {
                    assert(lines.skip(1)[k - 1] == lines[k]);
                    assert(rest[k - 1] == parse_record_spec(lines.skip(1)[k - 1])->Ok_0);
                    assert((seq![s0] + rest)[k] == rest[k - 1]);
                }
            }
            assert forall|k: int| 0 <= k < lines.len() implies parse_record_spec(
                #[trigger] lines[k],
            ) is Ok by {
                if k > 0 {
                    assert(lines.skip(1)[k - 1] == lines[k]);
                    assert(parse_record_spec(lines.skip(1)[k - 1]) is Ok);
                }
            }
        } else {
            if parse_record_spec(lines[0]) is Ok {
                assert(parse_all(lines.skip(1)) is Err);
                let k = choose|k: int|
                    0 <= k < lines.skip(1).len() && !(parse_record_spec(
                        #[trigger] lines.skip(1)[k],
                    ) is Ok);
                assert(!(parse_record_spec(lines[k + 1]) is Ok));
            }
        }
    }
}

/// Filtering one more element keeps it exactly when the predicate holds.
pub proof fn lemma_filter_push<A>(s: Seq<A>, pred: spec_fn(A) -> bool, x: A)
    ensures
        s.push(x).filter(pred) == if pred(x) {
            s.filter(pred).push(x)
        } else {
            s.filter(pred)
        },
{
    reveal(Seq::filter);
    assert(s.push(x).drop_last() =~= s);
    assert(s.push(x).last() == x);
}

/// Loads one file's text: every data line parsed in file order, or the
/// first parse failure.
pub fn load_samples(content: &Vec<u8>) -> (r: Result<Vec<Sample>, ParseError>)
    ensures
        r matches Ok(ss) ==> {
            &&& load_spec(content@) == Ok::<Seq<Sample>, ParseError>(ss@)
            &&& ss@.len() == data_lines_of(content@).len()
            &&& forall|k: int| 0 <= k < ss@.len() ==> (#[trigger] ss@[k]).wf()
        },
        r matches Err(e) ==> load_spec(content@) == Err::<Seq<Sample>, ParseError>(e),
{
    let lines = split_byte(content, 10);
    let n: usize = lines.len();
    let ghost lvs = views_of(lines@);
    let mut samples: Vec<Sample> = Vec::new();
    let mut i: usize = 0;
    proof {
        assert(lvs.take(0) =~= Seq::<Seq<u8>>::empty());
        assert(Seq::<Seq<u8>>::empty().filter(data_pred()) =~= Seq::<Seq<u8>>::empty()) by {
            reveal(Seq::filter);
        }
    }
    while i < n
        invariant
            n == lines@.len(),
            0 <= i <= n,
            lvs == views_of(lines@),
            lvs == lines_of(content@),
            parse_all(lvs.take(i as int).filter(data_pred())) == Ok::<Seq<Sample>, ParseError>(
                samples@,
            ),
            samples@.len() == lvs.take(i as int).filter(data_pred()).len(),
            forall|k: int| 0 <= k < samples@.len() ==> (#[trigger] samples@[k]).wf(),
        decreases n - i,
    {
        let ghost pre = lvs.take(i as int).filter(data_pred());
        proof {
            assert(lvs.take(i as int + 1) =~= lvs.take(i as int).push(lvs[i as int]));
            lemma_filter_push(lvs.take(i as int), data_pred(), lvs[i as int]);
        }
        if is_data_line(&lines[i]) {
            match parse_record(&lines[i]) {
                Ok(s) => {
                    proof {
                        lemma_parse_all_push(pre, lvs[i as int]);
                    }
                    samples.push(s);
                },
                Err(e) => {
                    proof {
                        let rest = lvs.skip(i as int);
                        assert(lvs =~= lvs.take(i as int) + rest);
                        Seq::filter_distributes_over_add(lvs.take(i as int), rest, data_pred());
                        assert(rest =~= seq![lvs[i as int]] + rest.skip(1));
                        Seq::filter_distributes_over_add(
                            seq![lvs[i as int]],
                            rest.skip(1),
                            data_pred(),
                        );
                        assert(seq![lvs[i as int]].filter(data_pred()) =~= seq![lvs[i as int]])
                            by {
                            reveal(Seq::filter);
                            assert(seq![lvs[i as int]].drop_last() =~= Seq::<Seq<u8>>::empty());
                        }
                        let dls = data_lines_of(content@);
                        let plen = pre.len() as int;
                        assert(dls.take(plen) =~= pre);
                        lemma_parse_all_split(dls, plen);
                        assert(dls.skip(plen) =~= seq![lvs[i as int]] + rest.skip(1).filter(
                            data_pred(),
                        ));
                        assert(parse_all(dls.skip(plen)) == Err::<Seq<Sample>, ParseError>(e));
                    }
                    return Err(e);
                },
            }
        }
        i = i + 1;
    }
    proof {
        assert(lvs.take(n as int) =~= lvs);
    }
    Ok(samples)
}

} // verus!
