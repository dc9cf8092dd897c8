use vstd::prelude::*;

verus! {

/// What one processor block of the source yields, as plain mathematical values.
pub struct CpuView {
    pub id: u32,
    pub vendor_id: Seq<char>,
    pub model_name: Seq<char>,
    pub cores: u32,
    pub threads: u32,
    pub flags: Seq<Seq<char>>,
    pub bugs: Seq<Seq<char>>,
}

/// The view of a sequence of strings: the characters of each, in order.
pub open spec fn strings_view(v: Seq<String>) -> Seq<Seq<char>> {
    v.map_values(|s: String| s@)
}

/// One processor record: a block of the source that ended with the terminator key.
#[derive(Debug, Clone, PartialEq, Eq)]
pub struct CPU {
    /// The physical package this processor belongs to (`physical id`).
    pub id: u32,
    /// The manufacturer's label (`vendor_id`).
    pub vendor_id: String,
    /// The model's label (`model name`).
    pub model_name: String,
    /// The physical cores of the package (`cpu cores`).
    pub cores: u32,
    /// The logical processors of the package (`siblings`).
    pub threads: u32,
    /// The feature names, in source order (`flags`).
    pub flags: Vec<String>,
    /// The names of known hardware issues, in source order (`bugs`).
    pub bugs: Vec<String>,
}

impl View for CPU {
    type V = CpuView;

    open spec fn view(&self) -> CpuView {
        CpuView {
            id: self.id,
            vendor_id: self.vendor_id@,
            model_name: self.model_name@,
            cores: self.cores,
            threads: self.threads,
            flags: strings_view(self.flags@),
            bugs: strings_view(self.bugs@),
        }
    }
}

/// The record that no field has been read into yet: zeros and empty texts.
pub open spec fn empty_cpu() -> CpuView {
    CpuView {
        id: 0,
        vendor_id: Seq::empty(),
        model_name: Seq::empty(),
        cores: 0,
        threads: 0,
        flags: Seq::empty(),
        bugs: Seq::empty(),
    }
}

impl CPU {
    /// A record with every field at its default.
    pub fn new() -> (r: CPU)
        ensures
            r@ == empty_cpu(),
    {
        let r = CPU {
            id: 0,
            vendor_id: String::new(),
            model_name: String::new(),
            cores: 0,
            threads: 0,
            flags: Vec::new(),
            bugs: Vec::new(),
        };
        assert(r@.flags =~= Seq::<Seq<char>>::empty());
        assert(r@.bugs =~= Seq::<Seq<char>>::empty());
        r
    }
}

impl Default for CPU {
    fn default() -> (r: CPU)
        ensures
            r@ == empty_cpu(),
    {
        CPU::new()
    }
}

/// The processor records of one parse, in the order of the source.
#[derive(Debug, Clone, PartialEq, Eq)]
pub struct CpuInfo {
    pub entries: Vec<CPU>,
}

/// The view of a sequence of records.
pub open spec fn cpus_view(v: Seq<CPU>) -> Seq<CpuView> {
    v.map_values(|c: CPU| c@)
}

impl View for CpuInfo {
    type V = Seq<CpuView>;

    open spec fn view(&self) -> Seq<CpuView> {
        cpus_view(self.entries@)
    }
}

impl CpuInfo {
    /// A collection with no records.
    pub fn empty() -> (r: CpuInfo)
        ensures
            r@ == Seq::<CpuView>::empty(),
    {
        let r = CpuInfo { entries: Vec::new() };
        assert(r@ =~= Seq::<CpuView>::empty());
        r
    }

    /// Appends one record at the end.
    pub fn push(&mut self, cpu: CPU)
        ensures
            final(self)@ == old(self)@.push(cpu@),
    {
        self.entries.push(cpu);
        assert(final(self)@ =~= old(self)@.push(cpu@));
    }
}

impl Default for CpuInfo {
    fn default() -> (r: CpuInfo)
        ensures
            r@ == Seq::<CpuView>::empty(),
    {
        CpuInfo::empty()
    }
}

} // verus!
