use cpuinfo::{CpuInfo, ParseError, CPU};

fn strings(words: &[&str]) -> Vec<String> {
    words.iter().map(|w| w.to_string()).collect()
}

fn block(id: u32, cores: u32, siblings: u32) -> String {
    format!(
        "processor\t: 0\nvendor_id\t: GenuineIntel\nmodel name\t: Test CPU @ 3.00GHz\nphysical id\t: {id}\ncpu cores\t: {cores}\nsiblings\t: {siblings}\nflags\t\t: fpu vme sse\nbugs\t\t: spectre_v1\npower management:\n\n"
    )
}

fn ids(info: &CpuInfo) -> Vec<u32> {
    info.entries.iter().map(|c| c.id).collect()
}

#[test]
fn same_physical_id_keeps_one_record() {
    let text = "physical id : 0\ncpu cores : 4\nsiblings : 8\npower management :\n\nphysical id : 0\ncpu cores : 4\nsiblings : 8\npower management :\n";
    let info = CpuInfo::parse(text).unwrap();
    assert_eq!(info.entries.len(), 1);
    assert_eq!(info.entries[0].id, 0);
    assert_eq!(info.entries[0].cores, 4);
    assert_eq!(info.entries[0].threads, 8);
}

#[test]
fn two_physical_ids_in_source_order() {
    let text = "physical id : 0\npower management :\n\nphysical id : 1\npower management :\n";
    let info = CpuInfo::parse(text).unwrap();
    assert_eq!(ids(&info), vec![0, 1]);
}

#[test]
fn flags_are_split_in_order() {
    let info = CpuInfo::parse("flags : a b c\npower management :\n").unwrap();
    assert_eq!(info.entries[0].flags, strings(&["a", "b", "c"]));
}

#[test]
fn empty_flags_give_no_words() {
    let info = CpuInfo::parse("flags :\npower management :\n").unwrap();
    assert!(info.entries[0].flags.is_empty());
}

#[test]
fn bugs_keep_duplicates_and_order() {
    let info = CpuInfo::parse("bugs :  x\ty  x \npower management :\n").unwrap();
    assert_eq!(info.entries[0].bugs, strings(&["x", "y", "x"]));
}

#[test]
fn line_without_delimiter_fails() {
    let r = CpuInfo::parse("physical id : 0\nnot a valid line\npower management :\n");
    assert_eq!(r, Err(ParseError::MissingDelimiter));
}

#[test]
fn unterminated_block_is_dropped() {
    let text = "physical id : 0\npower management :\n\nphysical id : 1\ncpu cores : 2\n";
    let info = CpuInfo::parse(text).unwrap();
    assert_eq!(ids(&info), vec![0]);
    let only = CpuInfo::parse("physical id : 3\nvendor_id : X\n").unwrap();
    assert!(only.entries.is_empty());
}

#[test]
fn distinct_ids_give_one_record_per_terminator() {
    let text = format!("{}{}{}", block(2, 4, 8), block(0, 2, 2), block(1, 6, 12));
    let info = CpuInfo::parse(&text).unwrap();
    assert_eq!(ids(&info), vec![2, 0, 1]);
    let c = &info.entries[0];
    assert_eq!(c.vendor_id, "GenuineIntel");
    assert_eq!(c.model_name, "Test CPU @ 3.00GHz");
    assert_eq!((c.cores, c.threads), (4, 8));
    assert_eq!(c.flags, strings(&["fpu", "vme", "sse"]));
    assert_eq!(c.bugs, strings(&["spectre_v1"]));
    assert_eq!((info.entries[2].cores, info.entries[2].threads), (6, 12));
}

#[test]
fn first_record_of_an_id_survives() {
    let text = "physical id : 1\nmodel name : first\npower management :\nphysical id : 0\npower management :\nphysical id : 1\nmodel name : second\npower management :\n";
    let info = CpuInfo::parse(text).unwrap();
    assert_eq!(ids(&info), vec![1, 0]);
    assert_eq!(info.entries[0].model_name, "first");
    assert!(info.entries.len() <= 3);
}

#[test]
fn parsing_twice_gives_the_same_records() {
    let text = format!("{}{}{}", block(0, 4, 8), block(0, 4, 8), block(1, 4, 8));
    let a = CpuInfo::parse(&text).unwrap();
    let b = CpuInfo::parse(&text).unwrap();
    assert_eq!(a, b);
}

#[test]
fn empty_text_gives_no_records() {
    assert!(CpuInfo::parse("").unwrap().entries.is_empty());
    assert!(CpuInfo::parse("\n\n\n").unwrap().entries.is_empty());
}

#[test]
fn missing_fields_keep_defaults() {
    let info = CpuInfo::parse("power management :\n").unwrap();
    assert_eq!(info.entries[0], CPU::default());
    let c = &info.entries[0];
    assert_eq!((c.id, c.cores, c.threads), (0, 0, 0));
    assert!(c.vendor_id.is_empty() && c.model_name.is_empty());
    assert!(c.flags.is_empty() && c.bugs.is_empty());
}

#[test]
fn value_may_hold_the_delimiter() {
    let info = CpuInfo::parse("model name :  A: B : C  \npower management :\n").unwrap();
    assert_eq!(info.entries[0].model_name, "A: B : C");
}

#[test]
fn unknown_keys_are_ignored() {
    let info = CpuInfo::parse("processor : 7\ncpu MHz : 1.5\nphysical id : 5\npower management:\n").unwrap();
    assert_eq!(ids(&info), vec![5]);
}

#[test]
fn crlf_line_endings_are_read() {
    let info = CpuInfo::parse("physical id : 9\r\nsiblings : 2\r\n\r\npower management :\r\n").unwrap();
    assert_eq!(ids(&info), vec![9]);
    assert_eq!(info.entries[0].threads, 2);
}

#[test]
fn invalid_physical_id_fails() {
    let r = CpuInfo::parse("physical id : x\npower management :\n");
    assert_eq!(r, Err(ParseError::InvalidPhysicalId));
    assert_eq!(CpuInfo::parse("physical id : -1\n"), Err(ParseError::InvalidPhysicalId));
    assert_eq!(CpuInfo::parse("physical id :\n"), Err(ParseError::InvalidPhysicalId));
}

#[test]
fn invalid_cpu_cores_fails() {
    assert_eq!(CpuInfo::parse("cpu cores : 4 4\n"), Err(ParseError::InvalidCpuCores));
}

#[test]
fn invalid_siblings_fails() {
    assert_eq!(CpuInfo::parse("siblings : +\n"), Err(ParseError::InvalidSiblings));
}

#[test]
fn numbers_read_like_str_parse() {
    let info = CpuInfo::parse("physical id : +12\ncpu cores : 4294967295\nsiblings : 007\npower management :\n").unwrap();
    let c = &info.entries[0];
    assert_eq!((c.id, c.cores, c.threads), (12, 4294967295, 7));
    assert_eq!(CpuInfo::parse("cpu cores : 4294967296\n"), Err(ParseError::InvalidCpuCores));
}

#[test]
fn error_messages_name_the_field() {
    assert_eq!(ParseError::InvalidPhysicalId.message(), "Failed to parse \"physical id\"");
    assert_eq!(ParseError::InvalidCpuCores.message(), "Failed to parse \"cpu cores\"");
    assert_eq!(ParseError::InvalidSiblings.message(), "Failed to parse \"siblings\"");
    assert_eq!(ParseError::MissingDelimiter.message(), "Malformed line: no ':' between key and value");
}

#[test]
fn push_appends_and_dedup_keeps_first() {
    let mut info = CpuInfo::empty();
    let mut a = CPU::new();
    a.id = 3;
    a.cores = 1;
    let mut b = CPU::new();
    b.id = 3;
    b.cores = 2;
    let mut c = CPU::new();
    c.id = 4;
    info.push(a);
    info.push(b);
    info.push(c);
    assert_eq!(info.entries.len(), 3);
    info.remove_duplicate_ids();
    assert_eq!(ids(&info), vec![3, 4]);
    assert_eq!(info.entries[0].cores, 1);
}
