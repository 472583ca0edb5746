use std::path::PathBuf;
use vstd::prelude::*;

use crate::error::StoreError;

verus! {

/// The byte that ends a line.
pub const NEWLINE: u8 = 10;

/// A carriage return, dropped where it stands just before a line's newline.
pub const CARRIAGE_RETURN: u8 = 13;

/// The offset of the first newline in `s`, or `s.len()` where there is none.
pub open spec fn first_newline(s: Seq<u8>) -> int
    decreases s.len(),
{
    if s.len() == 0 {
        0
    } else if s[0] == NEWLINE {
        0
    } else {
        1 + first_newline(s.drop_first())
    }
}

/// The text of a line that ended in a newline: without a carriage return
/// just before that newline.
pub open spec fn strip_carriage_return(line: Seq<u8>) -> Seq<u8> {
    if line.len() > 0 && line.last() == CARRIAGE_RETURN {
        line.drop_last()
    } else {
        line
    }
}

/// The lines of a log, read as buffered line readers read them: each ends at
/// a newline, a final line needs none, and an empty tail holds no line.
pub open spec fn lines_of(s: Seq<u8>) -> Seq<Seq<u8>>
    decreases s.len(),
    via lines_of_decreases
{
    if s.len() == 0 {
        Seq::empty()
    } else {
        let e = first_newline(s);
        if e >= s.len() {
            seq![s]
        } else {
            seq![strip_carriage_return(s.take(e))] + lines_of(s.skip(e + 1))
        }
    }
}

#[via_fn]
proof fn lines_of_decreases(s: Seq<u8>) {
    lemma_first_newline_bounds(s);
}

proof fn lemma_first_newline_bounds(s: Seq<u8>)
    ensures
        0 <= first_newline(s) <= s.len(),
        first_newline(s) < s.len() ==> s[first_newline(s)] == NEWLINE,
        forall|k: int| 0 <= k < first_newline(s) ==> s[k] != NEWLINE,
    decreases s.len(),
{
    if s.len() > 0 && s[0] != NEWLINE {
        lemma_first_newline_bounds(s.drop_first());
        assert forall|k: int| 0 <= k < first_newline(s) implies s[k] != NEWLINE by {
            if k > 0 {
                assert(s[k] == s.drop_first()[k - 1]);
            }
        }
    }
}

proof fn lemma_first_newline_is(s: Seq<u8>, m: int)
    requires
        0 <= m <= s.len(),
        m < s.len() ==> s[m] == NEWLINE,
        forall|k: int| 0 <= k < m ==> s[k] != NEWLINE,
    ensures
        first_newline(s) == m,
{
    lemma_first_newline_bounds(s);
    let f = first_newline(s);
    if f < m {
        assert(s[f] == NEWLINE);
    } else if f > m {
        assert(s[m] != NEWLINE);
    }
}

/// Whether a record reads back unchanged as one line: it holds no newline
/// and does not end in a carriage return.
pub open spec fn is_line_safe(record: Seq<u8>) -> bool {
    !record.contains(NEWLINE) && !(record.len() > 0 && record.last() == CARRIAGE_RETURN)
}

/// The log that results from appending `records` in order to an empty log.
pub open spec fn lines_log(records: Seq<Seq<u8>>) -> Seq<u8>
    decreases records.len(),
{
    if records.len() == 0 {
        Seq::empty()
    } else {
        lines_log(records.drop_last()) + records.last().push(NEWLINE)
    }
}

/// A log of records kept one per line, in the order they were appended;
/// record `i` is line `i` of the backing file.
#[derive(Debug)]
pub struct MetadataStore {
    path: PathBuf,
}

impl MetadataStore {
    pub fn new(path: PathBuf) -> MetadataStore {
        MetadataStore { path }
    }

    pub fn path(&self) -> &PathBuf {
        &self.path
    }

    /// Appends one serialized record and its newline to `log`, the image of
    /// the file's tail. A record that would not read back unchanged as one
    /// line is refused and `log` is left as it was.
    pub fn append_line(&self, log: &mut Vec<u8>, record: &Vec<u8>) -> (r: Result<(), StoreError>)
        ensures
            r is Ok <==> is_line_safe(record@),
            r is Ok ==> final(log)@ == old(log)@ + record@.push(NEWLINE),
            r is Err ==> final(log)@ == old(log)@ && r matches Err(StoreError::EncodingFailure),
    {
        let mut j: usize = 0;
        while j < record.len()
            invariant
                j <= record@.len(),
                forall|k: int| 0 <= k < j ==> record@[k] != NEWLINE,
            decreases record.len() - j,
        {
            if record[j] == NEWLINE {
                return Err(StoreError::EncodingFailure);
            }
            j += 1;
        }
        if record.len() > 0 && record[record.len() - 1] == CARRIAGE_RETURN {
            return Err(StoreError::EncodingFailure);
        }
        let ghost start = log@;
        let mut j: usize = 0;
        while j < record.len()
            invariant
                j <= record@.len(),
                log@ == start + record@.take(j as int),
            decreases record.len() - j,
        {
            log.push(record[j]);
            j += 1;
            proof {
                assert(record@.take(j as int) =~= record@.take(j - 1).push(record@[j - 1]));
            }
        }
        log.push(NEWLINE);
        proof {
            assert(record@.take(record@.len() as int) =~= record@);
            assert(log@ =~= start + record@.push(NEWLINE));
        }
        Ok(())
    }

    /// Line `index` of `log`, counting from zero, or `None` where the log
    /// has no such line.
    pub fn line_at(&self, log: &Vec<u8>, index: usize) -> (r: Option<Vec<u8>>)
        ensures
            r is None <==> index >= lines_of(log@).len(),
            r matches Some(line) ==> line@ == lines_of(log@)[index as int],
    {
        let len = log.len();
        let mut pos: usize = 0;
        let mut n: usize = 0;
        proof {
            assert(log@.skip(0) =~= log@);
        }
        while pos < len
            invariant_except_break
                n <= index,
            invariant
                len == log@.len(),
                pos <= len,
                n + lines_of(log@.skip(pos as int)).len() == lines_of(log@).len(),
                forall|j: int|
                    0 <= j < lines_of(log@.skip(pos as int)).len() ==> lines_of(log@)[n + j]
                        == #[trigger] lines_of(log@.skip(pos as int))[j],
            ensures
                pos >= len || n == index,
                pos <= len,
                n + lines_of(log@.skip(pos as int)).len() == lines_of(log@).len(),
                forall|j: int|
                    0 <= j < lines_of(log@.skip(pos as int)).len() ==> lines_of(log@)[n + j]
                        == #[trigger] lines_of(log@.skip(pos as int))[j],
                n <= index,
            decreases len - pos,
        {
            if n == index {
                break;
            }
            let ghost rest = log@.skip(pos as int);
            let mut e: usize = pos;
            while e < len && log[e] != NEWLINE
                invariant
                    len == log@.len(),
                    pos <= e <= len,
                    forall|k: int| pos <= k < e ==> log@[k] != NEWLINE,
                decreases len - e,
            {
                e += 1;
            }
            proof {
                lemma_first_newline_is(rest, e - pos);
                let next = if e < len { e + 1 } else { len as int };
                let tail = log@.skip(next);
                if e < len {
                    assert(rest.skip(e - pos + 1) =~= tail);
                    assert(lines_of(rest) == seq![strip_carriage_return(rest.take(e - pos))] + lines_of(tail));
                } else {
                    assert(tail.len() == 0);
                    assert(lines_of(tail) =~= Seq::<Seq<u8>>::empty());
                    assert(lines_of(rest) == seq![rest]);
                }
                assert forall|j: int| 0 <= j < lines_of(tail).len() implies lines_of(log@)[n + 1 + j]
                    == #[trigger] lines_of(tail)[j] by {
                    assert(lines_of(rest)[j + 1] == lines_of(tail)[j]);
                }
            }
            pos = if e < len { e + 1 } else { len };
            n += 1;
        }
        if pos >= len {
            proof {
                assert(log@.skip(pos as int).len() == 0);
            }
            return None;
        }
        let ghost rest = log@.skip(pos as int);
        let mut e: usize = pos;
        while e < len && log[e] != NEWLINE
            invariant
                len == log@.len(),
                pos <= e <= len,
                forall|k: int| pos <= k < e ==> log@[k] != NEWLINE,
            decreases len - e,
        {
            e += 1;
        }
        proof {
            lemma_first_newline_is(rest, e - pos);
        }
        let mut end = e;
        if e < len && e > pos && log[e - 1] == CARRIAGE_RETURN {
            end = e - 1;
        }
        let mut line: Vec<u8> = Vec::new();
        let mut j: usize = pos;
        while j < end
            invariant
                pos <= j <= end,
                end <= len,
                len == log@.len(),
                line@ == log@.subrange(pos as int, j as int),
            decreases end - j,
        {
            line.push(log[j]);
            j += 1;
            proof {
                assert(line@ =~= log@.subrange(pos as int, j as int));
            }
        }
        proof {
            assert(lines_of(log@)[n as int] == lines_of(rest)[0]);
            if e < len {
                assert(rest.take(e - pos) =~= log@.subrange(pos as int, e as int));
                assert(line@ =~= strip_carriage_return(rest.take(e - pos)));
            } else {
                assert(rest =~= log@.subrange(pos as int, e as int));
                assert(line@ =~= rest);
            }
        }
        Some(line)
    }
}

proof fn lemma_lines_of_cons(line: Seq<u8>, rest: Seq<u8>)
    requires
        is_line_safe(line),
    ensures
        lines_of(line + rest.insert(0, NEWLINE)) == seq![line] + lines_of(rest),
{
    let s = line + rest.insert(0, NEWLINE);
    assert forall|k: int| 0 <= k < line.len() implies s[k] != NEWLINE by {
        assert(s[k] == line[k]);
        assert(line.contains(line[k]));
    }
    lemma_first_newline_is(s, line.len() as int);
    assert(s.take(line.len() as int) =~= line);
    assert(s.skip(line.len() as int + 1) =~= rest);
}

/// The front-first form of a log: the first record, its newline, the rest.
proof fn lemma_lines_log_front(records: Seq<Seq<u8>>)
    requires
        records.len() > 0,
    ensures
        lines_log(records) == records[0] + lines_log(records.drop_first()).insert(0, NEWLINE),
    decreases records.len(),
{
    if records.len() == 1 {
        assert(records.drop_first() =~= Seq::<Seq<u8>>::empty());
        assert(records.drop_last() =~= Seq::<Seq<u8>>::empty());
        assert(lines_log(records) =~= records[0] + Seq::<u8>::empty().insert(0, NEWLINE));
    } else {
        let init = records.drop_last();
        lemma_lines_log_front(init);
        assert(init.drop_first() =~= records.drop_first().drop_last());
        assert(records.drop_first().last() == records.last());
        assert(init[0] == records[0]);
        assert(lines_log(records) =~= records[0] + lines_log(records.drop_first()).insert(0, NEWLINE));
    }
}

/// Record `i` of the log is line `i`: a log built by appending records that
/// `append_line` accepts reads back, line by line, as exactly those records.
pub proof fn lemma_lines_read_back(records: Seq<Seq<u8>>)
    requires
        forall|i: int| 0 <= i < records.len() ==> is_line_safe(#[trigger] records[i]),
    ensures
        lines_of(lines_log(records)) == records,
    decreases records.len(),
{
    if records.len() == 0 {
        assert(lines_of(Seq::<u8>::empty()) =~= Seq::<Seq<u8>>::empty());
    } else {
        let rest = records.drop_first();
        assert forall|i: int| 0 <= i < rest.len() implies is_line_safe(#[trigger] rest[i]) by {
            assert(rest[i] == records[i + 1]);
        }
        lemma_lines_read_back(rest);
        lemma_lines_log_front(records);
        assert(is_line_safe(records[0]));
        lemma_lines_of_cons(records[0], lines_log(rest));
        assert(records =~= seq![records[0]] + rest);
    }
}

} // verus!
