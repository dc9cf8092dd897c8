use vstd::prelude::*;

use crate::record::{cpus_view, empty_cpu, CpuInfo, CpuView, CPU};
use crate::text::{
    chars_of, find_after, find_from, find_in, lemma_find_from, line_at, lines, lines_from, parse_u32,
    parse_u32_in, range_is, string_of, trim, trim_range, words, words_in,
};

verus! {

/// Why a text could not be read as processor records.
#[derive(Debug, Clone, Copy, PartialEq, Eq, Structural)]
pub enum ParseError {
    /// A non-empty line holds no `:` between key and value.
    MissingDelimiter,
    /// The value of `physical id` is not an unsigned 32-bit number.
    InvalidPhysicalId,
    /// The value of `cpu cores` is not an unsigned 32-bit number.
    InvalidCpuCores,
    /// The value of `siblings` is not an unsigned 32-bit number.
    InvalidSiblings,
}

/// The diagnostic that names what could not be read.
pub open spec fn error_message(e: ParseError) -> Seq<char> {
    match e {
        ParseError::MissingDelimiter => "Malformed line: no ':' between key and value"@,
        ParseError::InvalidPhysicalId => "Failed to parse \"physical id\""@,
        ParseError::InvalidCpuCores => "Failed to parse \"cpu cores\""@,
        ParseError::InvalidSiblings => "Failed to parse \"siblings\""@,
    }
}

impl ParseError {
    /// The diagnostic for this error.
    pub fn message(&self) -> (r: String)
        ensures
            r@ == error_message(*self),
    {
        match self {
            ParseError::MissingDelimiter => "Malformed line: no ':' between key and value".to_string(),
            ParseError::InvalidPhysicalId => "Failed to parse \"physical id\"".to_string(),
            ParseError::InvalidCpuCores => "Failed to parse \"cpu cores\"".to_string(),
            ParseError::InvalidSiblings => "Failed to parse \"siblings\"".to_string(),
        }
    }
}

/// The key and the value of a line: the text before its first `:` and the text after it, both
/// trimmed; `None` where the line holds no `:`.
pub open spec fn split_line(line: Seq<char>) -> Option<(Seq<char>, Seq<char>)> {
    let c = find_from(line, 0, ':');
    if c < line.len() {
        Some((trim(line.take(c)), trim(line.skip(c + 1))))
    } else {
        None
    }
}

/// The key that closes a record.
pub open spec fn is_terminator(key: Seq<char>) -> bool {
    key == "power management"@
}

/// The in-progress record `cur` after the field `key` with the text `value` has been read into
/// it; keys that name no field leave it as it is.
pub open spec fn apply_field(cur: CpuView, key: Seq<char>, value: Seq<char>) -> Result<
    CpuView,
    ParseError,
> {
    if key == "physical id"@ {
        match parse_u32(value) {
            Some(n) => Ok(CpuView { id: n, ..cur }),
            None => Err(ParseError::InvalidPhysicalId),
        }
    } else if key == "vendor_id"@ {
        Ok(CpuView { vendor_id: value, ..cur })
    } else if key == "model name"@ {
        Ok(CpuView { model_name: value, ..cur })
    } else if key == "cpu cores"@ {
        match parse_u32(value) {
            Some(n) => Ok(CpuView { cores: n, ..cur }),
            None => Err(ParseError::InvalidCpuCores),
        }
    } else if key == "siblings"@ {
        match parse_u32(value) {
            Some(n) => Ok(CpuView { threads: n, ..cur }),
            None => Err(ParseError::InvalidSiblings),
        }
    } else if key == "flags"@ {
        Ok(CpuView { flags: words(value), ..cur })
    } else if key == "bugs"@ {
        Ok(CpuView { bugs: words(value), ..cur })
    } else {
        Ok(cur)
    }
}

/// The finished records and the in-progress record after one more line.
pub open spec fn step(done: Seq<CpuView>, cur: CpuView, line: Seq<char>) -> Result<
    (Seq<CpuView>, CpuView),
    ParseError,
> {
    if line.len() == 0 {
        Ok((done, cur))
    } else {
        match split_line(line) {
            None => Err(ParseError::MissingDelimiter),
            Some((key, value)) => if is_terminator(key) {
                Ok((done.push(cur), empty_cpu()))
            } else {
                match apply_field(cur, key, value) {
                    Ok(c) => Ok((done, c)),
                    Err(e) => Err(e),
                }
            },
        }
    }
}

/// The finished records once the lines `ls` have been read after `done` and `cur`; a record
/// still in progress at the end is not among them.
pub open spec fn accumulate(ls: Seq<Seq<char>>, done: Seq<CpuView>, cur: CpuView) -> Result<
    Seq<CpuView>,
    ParseError,
>
    decreases ls.len(),
{
    if ls.len() == 0 {
        Ok(done)
    } else {
        match step(done, cur, ls[0]) {
            Ok((d, c)) => accumulate(ls.drop_first(), d, c),
            Err(e) => Err(e),
        }
    }
}

/// Every record that a terminator closed in `text`, in source order.
pub open spec fn records(text: Seq<char>) -> Result<Seq<CpuView>, ParseError> {
    accumulate(lines(text), Seq::empty(), empty_cpu())
}

/// Whether a record before index `i` of `rs` has the physical id of `rs[i]`.
pub open spec fn id_seen_before(rs: Seq<CpuView>, i: int) -> bool {
    exists|j: int| 0 <= j < i && #[trigger] rs[j].id == rs[i].id
}

/// The records of `rs` whose physical id no earlier record has, in order.
pub open spec fn dedup(rs: Seq<CpuView>) -> Seq<CpuView>
    decreases rs.len(),
{
    if rs.len() == 0 {
        rs
    } else {
        let d = dedup(rs.drop_last());
        if id_seen_before(rs, rs.len() - 1) {
            d
        } else {
            d.push(rs.last())
        }
    }
}

/// What reading `text` gives: its records with one per physical id, or the first error.
pub open spec fn parsed(text: Seq<char>) -> Result<Seq<CpuView>, ParseError> {
    match records(text) {
        Ok(rs) => Ok(dedup(rs)),
        Err(e) => Err(e),
    }
}


/// Reads the field whose key is `s[klo..khi]` and whose value is `s[vlo..vhi]` into `cur`.
fn read_field(cur: &mut CPU, s: &Vec<char>, klo: usize, khi: usize, vlo: usize, vhi: usize) -> (r:
    Result<(), ParseError>)
    requires
        klo <= khi <= s.len(),
        vlo <= vhi <= s.len(),
    ensures
        match r {
            Ok(()) => apply_field(
                old(cur)@,
                s@.subrange(klo as int, khi as int),
                s@.subrange(vlo as int, vhi as int),
            ) == Ok::<CpuView, ParseError>(final(cur)@),
            Err(e) => apply_field(
                old(cur)@,
                s@.subrange(klo as int, khi as int),
                s@.subrange(vlo as int, vhi as int),
            ) == Err::<CpuView, ParseError>(e),
        },
{
    if range_is(s, klo, khi, "physical id") {
        match parse_u32_in(s, vlo, vhi) {
            Some(n) => cur.id = n,
            None => return Err(ParseError::InvalidPhysicalId),
        }
    } else if range_is(s, klo, khi, "vendor_id") {
        cur.vendor_id = string_of(s, vlo, vhi);
    } else if range_is(s, klo, khi, "model name") {
        cur.model_name = string_of(s, vlo, vhi);
    } else if range_is(s, klo, khi, "cpu cores") {
        match parse_u32_in(s, vlo, vhi) {
            Some(n) => cur.cores = n,
            None => return Err(ParseError::InvalidCpuCores),
        }
    } else if range_is(s, klo, khi, "siblings") {
        match parse_u32_in(s, vlo, vhi) {
            Some(n) => cur.threads = n,
            None => return Err(ParseError::InvalidSiblings),
        }
    } else if range_is(s, klo, khi, "flags") {
        cur.flags = words_in(s, vlo, vhi);
    } else if range_is(s, klo, khi, "bugs") {
        cur.bugs = words_in(s, vlo, vhi);
    }
    Ok(())
}


/// Reads the line `s[lo..hi]` into the finished records `done` and the record `cur` in progress.
fn read_line(done: &mut CpuInfo, cur: &mut CPU, s: &Vec<char>, lo: usize, hi: usize) -> (r: Result<
    (),
    ParseError,
>)
    requires
        lo <= hi <= s.len(),
    ensures
        match r {
            Ok(()) => step(old(done)@, old(cur)@, s@.subrange(lo as int, hi as int)) == Ok::<
                (Seq<CpuView>, CpuView),
                ParseError,
            >((final(done)@, final(cur)@)),
            Err(e) => step(old(done)@, old(cur)@, s@.subrange(lo as int, hi as int)) == Err::<
                (Seq<CpuView>, CpuView),
                ParseError,
            >(e),
        },
{
    if lo == hi {
        return Ok(());
    }
    let ghost line = s@.subrange(lo as int, hi as int);
    let colon = find_in(s, lo, hi, ':');
    if colon == hi {
        return Err(ParseError::MissingDelimiter);
    }
    assert(line.take(colon - lo) =~= s@.subrange(lo as int, colon as int));
    assert(line.skip(colon - lo + 1) =~= s@.subrange(colon + 1, hi as int));
    let (klo, khi) = trim_range(s, lo, colon);
    let (vlo, vhi) = trim_range(s, colon + 1, hi);
    if range_is(s, klo, khi, "power management") {
        let mut finished = CPU::new();
        std::mem::swap(cur, &mut finished);
        done.push(finished);
        Ok(())
    } else {
        read_field(cur, s, klo, khi, vlo, vhi)
    }
}

/// Whether `ids` holds `x`.
fn holds_id(ids: &Vec<u32>, x: u32) -> (r: bool)
    ensures
        r == ids@.contains(x),
{
    let mut k: usize = 0;
    while k < ids.len()
        invariant
            k <= ids.len(),
            forall|j: int| 0 <= j < k ==> ids@[j] != x,
        decreases ids.len() - k,
    {
        if ids[k] == x {
            return true;
        }
        k += 1;
    }
    false
}

impl CpuInfo {
    /// Keeps, for each physical id, only the first record that has it, in the order of the
    /// records.
    pub fn remove_duplicate_ids(&mut self)
        ensures
            final(self)@ == dedup(old(self)@),
    {
        let mut all: Vec<CPU> = Vec::new();
        std::mem::swap(&mut self.entries, &mut all);
        let ghost rs = cpus_view(all@);
        let mut seen: Vec<u32> = Vec::new();
        for cpu in it: all
            invariant
                rs == cpus_view(it.seq()),
                it.index() <= it.seq().len(),
                cpus_view(self.entries@) == dedup(rs.take(it.index() as int)),
                forall|x: u32|
                    seen@.contains(x) <==> exists|j: int|
                        0 <= j < it.index() && #[trigger] rs[j].id == x,
        {
            let ghost k = it.index() as int;
            let ghost pre = rs.take(k + 1);
            assert(pre.drop_last() =~= rs.take(k));
            assert(cpu@ == rs[k]);
            let id = cpu.id;
            let ghost seen_before = seen@;
            if holds_id(&seen, id) {
                proof {
                    let j = choose|j: int| 0 <= j < k && #[trigger] rs[j].id == id;
                    assert(pre[j].id == pre[k].id);
                }
            } else {
                assert(!id_seen_before(pre, k));
                let ghost before = self.entries@;
                self.entries.push(cpu);
                assert(cpus_view(self.entries@) =~= cpus_view(before).push(rs[k]));
                seen.push(id);
                assert(seen@ =~= seen_before.push(id));
            }
            proof {
                assert forall|x: u32|
                    seen@.contains(x) <==> exists|j: int|
                        0 <= j < k + 1 && #[trigger] rs[j].id == x by {
                    if x == id {
                        assert(rs[k].id == x);
                        if seen@.len() > seen_before.len() {
                            assert(seen@[seen_before.len() as int] == x);
                        }
                    } else {
                        if seen@.contains(x) {
                            let m = choose|m: int| 0 <= m < seen@.len() && seen@[m] == x;
                            assert(seen_before[m] == x);
                        }
                        if seen_before.contains(x) {
                            let m = choose|m: int| 0 <= m < seen_before.len() && seen_before[m] == x;
                            assert(seen@[m] == x);
                        }
                        if exists|j: int| 0 <= j < k + 1 && #[trigger] rs[j].id == x {
                            let j = choose|j: int| 0 <= j < k + 1 && #[trigger] rs[j].id == x;
                            assert(j < k);
                        }
                    }
                }
            }
        }
        assert(rs.take(rs.len() as int) =~= rs);
    }

    /// Reads the records of `text`: one for each block that the `power management` key closes,
    /// and of those only the first for each physical id.
    pub fn parse(text: &str) -> (r: Result<CpuInfo, ParseError>)
        ensures
            match r {
                Ok(info) => parsed(text@) == Ok::<Seq<CpuView>, ParseError>(info@),
                Err(e) => parsed(text@) == Err::<Seq<CpuView>, ParseError>(e),
            },
    {
        let s = chars_of(text);
        let mut done = CpuInfo::empty();
        let mut cur = CPU::new();
        let mut i: usize = 0;
        while i < s.len()
            invariant
                i <= s.len(),
                s@ == text@,
                records(text@) == accumulate(lines_from(s@, i as int), done@, cur@),
            decreases s.len() - i,
        {
            let e = find_after(&s, i, '\n');
            proof {
                lemma_find_from(s@, i as int, '\n');
            }
            let mut end = e;
            if e < s.len() && e > i && s[e - 1] == '\r' {
                end = e - 1;
            }
            let ghost line = line_at(s@, i as int, e as int);
            assert(s@.subrange(i as int, end as int) =~= line);
            let ghost rest = lines_from(s@, e + 1);
            assert((seq![line] + rest).drop_first() =~= rest);
            match read_line(&mut done, &mut cur, &s, i, end) {
                Ok(()) => {},
                Err(e) => return Err(e),
            }
            if e < s.len() {
                i = e + 1;
            } else {
                i = s.len();
            }
        }
        done.remove_duplicate_ids();
        Ok(done)
    }
}

} // verus!
