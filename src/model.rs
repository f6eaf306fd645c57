use vstd::prelude::*;
use crate::dataset::{encodes, lemma_encoded_row_wf, line_class, read_dataset, Dataset, FormatError};
use crate::order::{string_views, strictly_sorted};
use crate::table::{class_rows, word_count, CondProbTable};
use crate::vocab::{in_corpus, read_vocab, Vocabulary};

verus! {

/// Trains on a corpus: builds its vocabulary, encodes every line over it and
/// counts the rows into a table. Fails, naming the line, where a line's class
/// token is missing or is neither `1` nor `0`.
pub fn train(lines: &Vec<String>) -> (r: Result<(Vocabulary, Dataset, CondProbTable), FormatError>)
    ensures
        match r {
            Ok((v, d, t)) => {
                &&& strictly_sorted(string_views(v@))
                &&& forall|w: Seq<char>|
                    string_views(v@).contains(w) <==> in_corpus(string_views(lines@), w)
                &&& d@.len() == lines@.len()
                &&& forall|k: int|
                    0 <= k < lines@.len() ==> encodes(#[trigger] d@[k], lines@[k]@, string_views(v@))
                &&& t.wf()
                &&& t.spec_vocab_len() == v@.len()
                &&& t.spec_total() == lines@.len()
                &&& forall|c: bool| #[trigger] t.spec_class_rows(c) == class_rows(d@, c)
                &&& forall|c: bool, i: usize|
                    (i as int) < v@.len() ==> #[trigger] t.spec_count(c, i as int) == word_count(
                        d@,
                        c,
                        i,
                    )
            },
            Err(e) => {
                &&& 1 <= e.line <= lines@.len()
                &&& line_class(lines@[e.line - 1]@) is None
                &&& forall|k: int| 0 <= k < e.line - 1 ==> line_class(#[trigger] lines@[k]@) is Some
            },
        },
{
    let vocab = read_vocab(lines);
    let data = match read_dataset(lines, &vocab) {
        Ok(d) => d,
        Err(e) => return Err(e),
    };
    proof {
        assert forall|k: int| 0 <= k < data@.len() implies crate::table::row_wf(
            #[trigger] data@[k],
            vocab@.len() as nat,
        ) by {
            lemma_encoded_row_wf(data@[k], lines@[k]@, string_views(vocab@));
        }
    }
    let table = CondProbTable::from_data(&data, vocab.len());
    Ok((vocab, data, table))
}

} // verus!
