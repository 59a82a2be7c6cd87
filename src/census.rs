//! Census geographic header records and the tables of a redistricting file.
use vstd::prelude::*;

verus! {

/// The tables of a redistricting data file.
#[derive(Clone, Copy, Debug, PartialEq, Eq, Hash, Structural)]
pub enum Table {
    P1,
    P2,
    P3,
    P4,
    H1,
    P5,
}

/// The fields of `s` separated by `sep`: an empty text has one empty field.
pub open spec fn split_fields(s: Seq<char>, sep: char) -> Seq<Seq<char>>
    decreases s.len(),
{
    if s.len() == 0 {
        seq![Seq::empty()]
    } else {
        let rest = split_fields(s.drop_last(), sep);
        if s.last() == sep {
            rest.push(Seq::empty())
        } else {
            rest.update(rest.len() - 1, rest.last().push(s.last()))
        }
    }
}

proof fn lemma_split_fields_nonempty(s: Seq<char>, sep: char)
    ensures
        split_fields(s, sep).len() >= 1,
    decreases s.len(),
{
    if s.len() > 0 {
        lemma_split_fields_nonempty(s.drop_last(), sep);
    }
}

/// One geographic header record: its `|`-separated fields.
pub struct GeographicalHeader {
    data: Vec<String>,
}

impl GeographicalHeader {
    pub closed spec fn fields(&self) -> Seq<Seq<char>> {
        self.data@.map_values(|f: String| f@)
    }

    /// Splits a record at every `|`.
    pub fn new(data: &str) -> (r: GeographicalHeader)
        ensures
            r.fields() == split_fields(data@, '|'),
    {
        let n = data.unicode_len();
        let mut fields: Vec<String> = Vec::new();
        let mut current = String::new();
        let mut i: usize = 0;
        proof {
            assert(data@.subrange(0, 0) =~= Seq::<char>::empty());
            assert(fields@.map_values(|f: String| f@).push(current@) =~= seq![Seq::<char>::empty()]);
        }
        while i < n
            invariant
                i <= n,
                n == data@.len(),
                fields@.map_values(|f: String| f@).push(current@) == split_fields(
                    data@.subrange(0, i as int),
                    '|',
                ),
            decreases n - i,
        {
            let c = data.get_char(i);
            let ghost pre = data@.subrange(0, i + 1);
            proof {
                assert(pre.drop_last() =~= data@.subrange(0, i as int));
                assert(pre.last() == c);
                lemma_split_fields_nonempty(data@.subrange(0, i as int), '|');
            }
            let ghost before = fields@.map_values(|f: String| f@);
            let ghost cur = current@;
            if c == '|' {
                let done = current;
                fields.push(done);
                current = String::new();
                proof {
                    assert(fields@.map_values(|f: String| f@) =~= before.push(cur));
                }
            } else {
                let piece = char_text(c);
                current.append(piece.as_str());
                proof {
                    assert(current@ =~= cur.push(c));
                    let rest = before.push(cur);
                    assert(rest.update(rest.len() - 1, cur.push(c)) =~= before.push(current@));
                }
            }
            i = i + 1;
        }
        fields.push(current);
        proof {
            assert(data@.subrange(0, n as int) =~= data@);
        }
        GeographicalHeader { data: fields }
    }

    /// The number of fields.
    pub fn len(&self) -> (r: usize)
        ensures
            r == self.fields().len(),
    {
        self.data.len()
    }

    /// The field at `index`, where there is one.
    pub fn field(&self, index: usize) -> (r: Option<&str>)
        ensures
            index < self.fields().len() ==> r is Some && r->Some_0@ == self.fields()[index as int],
            index >= self.fields().len() ==> r is None,
    {
        if index < self.data.len() {
            Some(self.data[index].as_str())
        } else {
            None
        }
    }
}

/// Relies on `char::to_string`: the one-character string of `c`.
#[verifier::external_body]
fn char_text(c: char) -> (r: String)
    ensures
        r@ == seq![c],
{
    c.to_string()
}

} // verus!
