use procwatch::procfs::{
    cpu_ticks, field_u64, labelled_number, mem_total_bytes, parse_u64, rss_bytes, split_fields,
    stat_name, strip_parens,
};

const STAT: &str = "4242 (nginx) S 1 4242 4242 0 -1 4194560 1234 0 0 0 150 50 0 0 20 0 1 0 98765 123456789 2048 18446744073709551615";

const STATUS: &str = "Name:\tnginx\nUmask:\t0022\nState:\tS (sleeping)\nVmPeak:\t  20000 kB\nVmRSS:\t    8192 kB\nThreads:\t1\n";

#[test]
fn parse_u64_follows_std() {
    for s in ["0", "7", "+5", "0042", "18446744073709551615", "", "+", "-1", " 5", "5 ", "5a", "18446744073709551616", "١"] {
        assert_eq!(parse_u64(s), s.parse::<u64>().ok(), "input {:?}", s);
    }
}

#[test]
fn split_fields_follows_std() {
    for s in ["", "  ", "a", " a  b\tc\n", "x\u{a0}y\u{3000}z", STAT] {
        let expected: Vec<&str> = s.split_whitespace().collect();
        assert_eq!(split_fields(s), expected, "input {:?}", s);
    }
}

#[test]
fn strip_parens_follows_std() {
    for s in ["(nginx)", "((a)b))", "()", "plain", "(x", ")(", ""] {
        assert_eq!(strip_parens(s), s.trim_matches(|c| c == '(' || c == ')'), "input {:?}", s);
    }
}

#[test]
fn stat_fields_give_name_ticks_and_start() {
    let fields = split_fields(STAT);
    assert_eq!(stat_name(&fields), "nginx");
    assert_eq!(cpu_ticks(&fields), 200);
    assert_eq!(field_u64(&fields, 21), 98765);
    assert_eq!(field_u64(&fields, 99), 0);
    assert_eq!(field_u64(&fields, 7), 0);
    assert_eq!(stat_name(&fields[..1]), "");
}

#[test]
fn status_and_meminfo_values() {
    assert_eq!(labelled_number(STATUS, "VmRSS:"), Some(8192));
    assert_eq!(labelled_number(STATUS, "VmSwap:"), None);
    assert_eq!(rss_bytes(STATUS), 8192 * 1024);
    assert_eq!(rss_bytes("Name:\tkthreadd\n"), 0);
    assert_eq!(rss_bytes("VmRSS:\tlots kB\nVmRSS:\t5 kB\n"), 0);
    let meminfo = "MemTotal:       16318480 kB\nMemFree:         1000000 kB\n";
    assert_eq!(mem_total_bytes(Some(meminfo)), 16318480 * 1024);
    assert_eq!(mem_total_bytes(Some("MemFree: 5 kB\n")), 1024);
    assert_eq!(mem_total_bytes(None), 1024);
}
