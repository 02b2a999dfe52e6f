use apmc::kpep::{KpepDatabase, KpepError, KpepEvent};
use apmc::list::{list_events, mentions, passes_filter};
use apmc::load::{
    database_path, find_database_path, CpuLoad, LoadReply, LoadRequest, LoadStep,
};
use apmc::property_list::{ParseFailure, Plist};
use apmc::scalars::{is_data_text, is_integer_text, is_real_text, judge_date, DateKind};
use apmc::stat::{default_events, select_events};
use apmc::xml::has_last_day_date;

fn text(s: &str) -> Plist {
    Plist::Text(s.to_string())
}

fn dict(entries: Vec<(&str, Plist)>) -> Plist {
    Plist::Dictionary(entries.into_iter().map(|(k, v)| (k.to_string(), v)).collect())
}

fn event(number: u64, mask: Option<u64>, description: &str) -> Plist {
    let mut fields = vec![("number", Plist::Unsigned(number)), ("description", text(description))];
    if let Some(m) = mask {
        fields.push(("counters_mask", Plist::Unsigned(m)));
    }
    dict(fields)
}

fn sample() -> Plist {
    dict(vec![
        ("name", text("a15")),
        (
            "system",
            dict(vec![(
                "cpu",
                dict(vec![
                    ("architecture", text("arm64")),
                    ("marketing_name", text("Apple M2")),
                    ("fixed_counters", Plist::Unsigned(2)),
                    ("config_counters", Plist::Unsigned(8)),
                    ("aliases", dict(vec![("Cycles", text("FIXED_CYCLES")), ("odd", Plist::Other)])),
                    (
                        "events",
                        dict(vec![
                            ("MAP_STALL", event(118, None, "Cycles stalled")),
                            ("INST_ALL", event(140, Some(0x80), "All retired instructions")),
                            (
                                "FIXED_CYCLES",
                                dict(vec![
                                    ("fixed_counter", Plist::Unsigned(0)),
                                    ("fallback", text("CORE_ACTIVE_CYCLE")),
                                    ("number", Plist::Unsigned(2)),
                                ]),
                            ),
                            ("junk", text("not an event")),
                            ("BARE", dict(vec![("description", Plist::Unsigned(1))])),
                        ]),
                    ),
                ]),
            )]),
        ),
    ])
}

fn names(events: &[&KpepEvent]) -> Vec<String> {
    events.iter().map(|e| e.name.clone()).collect()
}

#[test]
fn a_database_is_read_from_a_tree() {
    let db = KpepDatabase::parse(&sample()).unwrap();
    assert_eq!(db.name, "a15");
    assert_eq!(db.cpu.architecture, "arm64");
    assert_eq!(db.cpu.marketing_name, "Apple M2");
    assert_eq!((db.cpu.fixed_counters, db.cpu.config_counters), (2, 8));
    assert_eq!(db.cpu.aliases, vec![("Cycles".to_string(), "FIXED_CYCLES".to_string())]);
    let all: Vec<&KpepEvent> = db.events().iter().collect();
    assert_eq!(names(&all), vec!["BARE", "FIXED_CYCLES", "INST_ALL", "MAP_STALL"]);
    assert_eq!(names(&db.fixed_events()), vec!["FIXED_CYCLES"]);
    assert_eq!(names(&db.configurable_events()), vec!["INST_ALL", "MAP_STALL"]);
    let fixed = db.event_by_name("FIXED_CYCLES").unwrap();
    assert!(fixed.is_fixed() && !fixed.is_configurable());
    assert_eq!(fixed.fallback.clone().unwrap(), "CORE_ACTIVE_CYCLE");
    assert_eq!(fixed.description, "");
    let inst = db.event_by_name("INST_ALL").unwrap().clone();
    assert_eq!((inst.number, inst.counters_mask), (Some(140), Some(0x80)));
    assert_eq!(inst.pc_capture_counters_mask, None);
    assert!(!db.event_by_name("BARE").unwrap().is_configurable());
}

#[test]
fn an_alias_finds_the_event_it_stands_for() {
    let db = KpepDatabase::parse(&sample()).unwrap();
    assert_eq!(db.event_by_name("Cycles").unwrap().name, "FIXED_CYCLES");
    assert!(db.event_by_name("cycles").is_none());
    assert!(db.event_by_name("junk").is_none());
    assert!(db.event_by_name("").is_none());
    assert_eq!(db.cpu.clone().aliases, db.cpu.aliases);
}

#[test]
fn every_event_is_found_by_its_name() {
    let db = KpepDatabase::parse(&sample()).unwrap();
    for e in db.events() {
        assert_eq!(db.event_by_name(&e.name).unwrap().name, e.name);
    }
}

#[test]
fn a_tree_must_be_built_like_a_database() {
    let fails = |root: Plist, what: &str| match KpepDatabase::parse(&root) {
        Err(KpepError::StructureError(s)) => assert_eq!(s, what),
        other => panic!("{other:?}"),
    };
    fails(text("x"), "root is not a dict");
    fails(dict(vec![]), "missing system");
    fails(dict(vec![("system", text("x"))]), "missing system");
    fails(dict(vec![("system", dict(vec![]))]), "missing system.cpu");
    fails(
        dict(vec![("system", dict(vec![("cpu", dict(vec![]))]))]),
        "missing system.cpu.events",
    );
}

#[test]
fn what_a_database_does_not_say_has_a_default() {
    let cpu = dict(vec![("events", dict(vec![]))]);
    let db = KpepDatabase::parse(&dict(vec![("system", dict(vec![("cpu", cpu)]))])).unwrap();
    assert_eq!(db.name, "unknown");
    assert_eq!(db.cpu.architecture, "unknown");
    assert_eq!(db.cpu.marketing_name, "unknown");
    assert_eq!((db.cpu.fixed_counters, db.cpu.config_counters), (0, 0));
    assert!(db.cpu.aliases.is_empty());
    assert!(db.events().is_empty());
}

#[test]
fn events_are_ordered_by_code_points() {
    let names = ["b", "ab", "a", "B", "\u{e9}", "z", "a_", "aB"];
    let events = dict(names.iter().map(|n| (*n, event(1, None, ""))).collect());
    let root = dict(vec![("system", dict(vec![("cpu", dict(vec![("events", events)]))]))]);
    let db = KpepDatabase::parse(&root).unwrap();
    let mut sorted: Vec<String> = names.iter().map(|n| n.to_string()).collect();
    sorted.sort();
    let got: Vec<String> = db.events().iter().map(|e| e.name.clone()).collect();
    assert_eq!(got, sorted);
}

const DOCUMENT: &str = r#"<?xml version="1.0" encoding="UTF-8"?>
<plist version="1.0"><dict>
<key>name</key><string>x</string>
<key>system</key><dict><key>cpu</key><dict>
<key>marketing_name</key><string>Test</string>
<key>config_counters</key><integer>8</integer>
<key>fixed_counters</key><integer>-1</integer>
<key>aliases</key><dict><key>L</key><string>LD</string><key>N</key><integer>3</integer></dict>
<key>events</key><dict>
<key>ST</key><dict><key>number</key><integer>162</integer><key>description</key><string>Stores</string></dict>
<key>LD</key><dict><key>number</key><integer>163</integer><key>counters_mask</key><integer>224</integer></dict>
<key>X</key><array/>
</dict></dict></dict></dict></plist>"#;

fn check_document(bytes: Vec<u8>) {
    let db = KpepDatabase::load_from_path("/tmp/x.plist", Ok(bytes)).unwrap();
    assert_eq!((db.name.as_str(), db.cpu.marketing_name.as_str()), ("x", "Test"));
    assert_eq!((db.cpu.fixed_counters, db.cpu.config_counters), (0, 8));
    assert_eq!(db.cpu.aliases, vec![("L".to_string(), "LD".to_string())]);
    assert_eq!(db.events().len(), 2);
    assert_eq!(db.event_by_name("L").unwrap().counters_mask, Some(0xe0));
    assert_eq!(db.event_by_name("ST").unwrap().description, "Stores");
    assert!(db.event_by_name("X").is_none());
}

#[test]
fn a_database_is_read_from_xml() {
    check_document(DOCUMENT.as_bytes().to_vec());
}

#[test]
fn a_database_is_read_from_a_binary_document() {
    let value = plist::Value::from_reader(std::io::Cursor::new(DOCUMENT.as_bytes())).unwrap();
    let mut bytes = Vec::new();
    value.to_writer_binary(&mut bytes).unwrap();
    assert_eq!(&bytes[..8], b"bplist00");
    check_document(bytes);
}

#[test]
fn what_is_no_document_cannot_be_parsed() {
    for bytes in [b"bplist00 and no more".to_vec(), b"<plist><dict>".to_vec(), vec![]] {
        assert!(matches!(
            KpepDatabase::load_from_path("/a/b", Ok(bytes)),
            Err(KpepError::ParseError(ParseFailure::Document(_)))
        ));
    }
}

#[test]
fn a_file_that_is_not_read_is_an_error_with_its_path() {
    match KpepDatabase::load_from_path("/a/b", Err("gone".to_string())) {
        Err(KpepError::ReadError { path, source }) => {
            assert_eq!((path.as_str(), source.as_str()), ("/a/b", "gone"))
        }
        other => panic!("{other:?}"),
    }
}

/// A database with a further element in its root.
fn with_element(element: &str) -> Vec<u8> {
    DOCUMENT.replace("<key>name</key>", &format!("<key>k</key>{element}<key>name</key>")).into_bytes()
}

#[test]
fn dates_behind_the_last_year_are_refused() {
    for element in [
        "<date>9999-12-31T23:30:00-01:00</date>",
        "<date>9999-12-31T23:00:00-01:00</date>",
        "<date>9999-12-31T00:01:00-23:59</date>",
        "<date>9999-12-31 23:59:59.5-00:01</date>",
        "<date>9999-12-31&lt;23:30:00-01:00</date>",
        "<date>9999&nothing;-12-31T23:30:00-01:00</date>",
        "<date><!-- a > b -->9999-12-<!---->31T23:30:00-01:00</date>",
        "<date>9999-<![CDATA[ ]>]]>12-31T23:30:00<?x > ?>-01:00</date>",
        "<date>&#57;&#057;&#x39;&#x0039;-12-31T23:30:00&#x2D;01:00</date>",
        "<date>9999&#45;12-31&#84;23:30:00&#x2d;01:00</date>",
        "<x:date>9999-12-31T23:30:00-01:00</x:date>",
        "<date a='>' b=\">\">9999-12-31T23:30:00-01:00</date>",
        "<date\n>9999-12-31T23:30:00-01:00</date >",
        "<date>9999<!DOCTYPE x [<!ENTITY y '>'>]>-12-31T23:30:00-01:00</date>",
        "<array><true/><integer>0x1f</integer><real>-1e3</real><data>\nAQ==\n</data><dict/>\
            <date>9999-12-31T23:30:00-01:00</date></array>",
        "<date>2001-01-01T00:00:00Z</date><date>9999-12-31T23:30:00-01:00</date>",
    ] {
        assert!(has_last_day_date(&with_element(element)), "{element}");
        assert!(
            matches!(
                KpepDatabase::load_from_path("/a/b", Ok(with_element(element))),
                Err(KpepError::ParseError(ParseFailure::LastDay))
            ),
            "{element}"
        );
    }
    let marked = [b"\xef\xbb\xbf".to_vec(), with_element("<date>9999-12-31T23:30:00-01:00</date>")];
    assert!(has_last_day_date(&marked.concat()));
}

#[test]
fn documents_with_other_dates_are_read() {
    for element in [
        "<date>2001-01-01T00:00:00Z</date>",
        "<date>9999-12-31T23:30:00Z</date>",
        "<date>9999-12-31-23:30:00Z</date>",
        "<date>9999-12-31T23:30:00+01:00</date>",
        "<date>9999-12-30T23:30:00-01:00</date>",
        "<date>9999-12-31T00:00:00-01:00</date>",
        "<date>9999-12-31T22:59:00-01:00</date>",
        "<date>9999-12-31T22:59:59.999-01:00</date>",
        "<date>9999-12-31T00:00:00-23:59</date>",
        "<date>9999-12-31T23:59:60Z</date>",
        "<date>9999-12-31<!DOCTYPE x [<!ENTITY y '>'>]>T00:00:00-01:00</date>",
        "<date>999&#56;-12-31T23:30:00-01:00</date>",
        "<date>2001-01-01<!-- 9999-12-31T23:30:00-01:00 -->T00:00:00-01:00</date>",
        "<date>2001-01-01T00:00:00Z</date><key>l</key><string>9999-12-31T23:30:00-01:00</string>",
        "<string>9999-12-31T23:30:00-01:00</string>",
        "<string>&lt;date&gt;9999-12-31T23:30:00-01:00</string>",
        "<!-- <date>9999-12-31T23:30:00-01:00</date> --><true/>",
        "<![CDATA[<date>9999-12-31T23:30:00-01:00</date>]]><true/>",
        "<?x <date>9999-12-31T23:30:00-01:00</date> ?><true/>",
        "<true x='<date>9999-12-31T23:30:00-01:00</date>'/>",
        "<!DOCTYPE x [<!ENTITY y '<date>9999-12-31T23:30:00-01:00</date>'>]><true/>",
    ] {
        assert!(!has_last_day_date(&with_element(element)), "{element}");
        let db = KpepDatabase::load_from_path("/a/b", Ok(with_element(element))).unwrap();
        assert_eq!((db.name(), db.events().len()), ("x", 2), "{element}");
    }
    let mut top = plist::Dictionary::new();
    let date = "<date>9999-12-31T23:30:00-01:00</date>";
    top.insert("k".to_string(), plist::Value::String(date.to_string()));
    let mut bytes = Vec::new();
    plist::Value::Dictionary(top).to_writer_binary(&mut bytes).unwrap();
    let quoted = format!("{{ name = \"{date}\"; }}").into_bytes();
    for bytes in [bytes, quoted] {
        assert!(matches!(
            KpepDatabase::load_from_path("/a/b", Ok(bytes)),
            Err(KpepError::StructureError(s)) if s == "missing system"
        ));
    }
}

#[test]
fn a_database_may_name_a_last_date_in_a_comment() {
    let note = "<!-- not <date>9999-12-31T23:30:00-01:00</date> --><plist";
    check_document(DOCUMENT.replacen("<plist", note, 1).into_bytes());
}

#[test]
fn faults_before_a_last_date_are_told_as_such() {
    for element in [
        "<date>9999-12-31T23:30:00-1:00</date>",
        "<date>9999-12-31T23:61:00-01:00</date>",
        "<date>9999-12-31T23:30:00-01:00</dat>",
        "<a':date x'>9999-12-31T23:30:00-01:00</a':date>",
        "<date>9999-12-31T23:30:00-01:00&</date>",
        "<date>9999-12-31T23:30:00-01:00<x/></date>",
        "<integer>x</integer><date>9999-12-31T23:30:00-01:00</date>",
        "<real>x</real><date>9999-12-31T23:30:00-01:00</date>",
        "<data>A</data><date>9999-12-31T23:30:00-01:00</date>",
        "text<date>9999-12-31T23:30:00-01:00</date>",
        "&amp;<date>9999-12-31T23:30:00-01:00</date>",
        "<else/><date>9999-12-31T23:30:00-01:00</date>",
        "<true/><true/><date>9999-12-31T23:30:00-01:00</date>",
        "<!-x--><date>9999-12-31T23:30:00-01:00</date>",
    ] {
        assert!(!has_last_day_date(&with_element(element)), "{element}");
        assert!(
            matches!(
                KpepDatabase::load_from_path("/a/b", Ok(with_element(element))),
                Err(KpepError::ParseError(ParseFailure::Document(_)))
            ),
            "{element}"
        );
    }
    let mut bytes = with_element("<string>?</string><date>9999-12-31T23:30:00-01:00</date>");
    let at = bytes.iter().rposition(|&b| b == b'?').unwrap();
    bytes[at] = 0xff;
    assert!(!has_last_day_date(&bytes));
    assert!(KpepDatabase::load_from_path("/a/b", Ok(bytes)).is_err());
}

/// Whether the `plist` crate reads an element with the given text.
fn is_read(name: &str, text: &str) -> bool {
    let document = format!("<plist><array><{name}>{text}</{name}></array></plist>");
    plist::Value::from_reader(std::io::Cursor::new(document.as_bytes())).is_ok()
}

#[test]
fn numbers_are_told_as_they_are_read() {
    for (text, told) in [
        ("0", true),
        ("+12", true),
        ("18446744073709551615", true),
        ("18446744073709551616", false),
        ("-9223372036854775808", true),
        ("-9223372036854775809", false),
        ("0000000000000000000000000000000001", true),
        ("0xff", true),
        ("0x0xFF", true),
        ("0x+1", true),
        ("0x", false),
        ("0xffffffffffffffff", true),
        ("0x10000000000000000", false),
        ("-0x1", false),
        ("", false),
        ("-", false),
        ("1 ", false),
    ] {
        assert_eq!(is_integer_text(text.as_bytes()), told, "{text}");
        assert_eq!(is_read("integer", text), told, "{text}");
    }
    for (text, told) in [
        ("1.5", true),
        ("-.5e-3", true),
        ("5.", true),
        (".", false),
        ("1e", false),
        ("1e400", true),
        ("+Infinity", true),
        ("infi", false),
        ("-nAn", true),
        ("", false),
        ("0x1", false),
    ] {
        assert_eq!(is_real_text(text.as_bytes()), told, "{text}");
        assert_eq!(is_read("real", text), told, "{text}");
    }
}

#[test]
fn data_is_told_as_it_is_read() {
    for (text, told) in [
        ("", true),
        ("AAAA", true),
        (" A\tA\r\nAA ", true),
        ("AQ==", true),
        ("AR==", false),
        ("AAE=", true),
        ("AAF=", false),
        ("A===", false),
        ("AAA", false),
        ("=AAA", false),
        ("AA-A", false),
        ("A\u{b}AAA", false),
    ] {
        assert_eq!(is_data_text(text.as_bytes()), told, "{text:?}");
        assert_eq!(is_read("data", text), told, "{text:?}");
    }
}

#[test]
fn dates_are_told_as_they_are_read() {
    for (text, told) in [
        ("2001-01-01T00:00:00Z", true),
        ("2001-01-01x00:00:00.25z", true),
        ("0000-01-01T00:00:00+23:59", true),
        ("2000-02-29T00:00:00Z", true),
        ("1900-02-29T00:00:00Z", false),
        ("2001-04-31T00:00:00Z", false),
        ("2001-13-01T00:00:00Z", false),
        ("2001-01-01T24:00:00Z", false),
        ("2016-12-31T23:59:60Z", true),
        ("2017-01-01T00:59:60+01:00", true),
        ("2016-12-30T23:59:60-23:59", false),
        ("2016-12-30T23:59:60-24:00", false),
        ("2016-12-31T22:59:60Z", false),
        ("2001-01-01T00:00:00.Z", false),
        ("2001-01-01T00:00:00", false),
        ("2001-01-01T00:00:00-1:00", false),
        ("2001-01-01T00:00:00+00:60", false),
        ("", false),
    ] {
        let kind = if told { DateKind::InRange } else { DateKind::Malformed };
        assert_eq!(judge_date(text.as_bytes()), kind, "{text}");
        assert_eq!(is_read("date", text), told, "{text}");
    }
    assert_eq!(judge_date(b"9999-12-31T23:00:00-01:00"), DateKind::Behind);
    assert_eq!(judge_date(b"9999-12-31T22:59:59-01:00"), DateKind::InRange);
}

#[test]
fn key_order_and_ignored_entries_do_not_matter() {
    let cpu = |flipped: bool| {
        let mut aliases = vec![("a", text("E")), ("b", text("F"))];
        let mut events = vec![("E", event(1, Some(3), "e")), ("F", event(2, None, "f"))];
        let mut fields = vec![("architecture", text("arm64")), ("fixed_counters", Plist::Unsigned(2))];
        if flipped {
            aliases.reverse();
            aliases.push(("c", Plist::Unsigned(1)));
            events.reverse();
            events.insert(0, ("G", text("no event")));
            fields.push(("else", Plist::Other));
            fields.reverse();
        }
        fields.push(("aliases", dict(aliases)));
        fields.insert(0, ("events", dict(events)));
        dict(vec![("system", dict(vec![("cpu", dict(fields))])), ("name", text("n"))])
    };
    let a = KpepDatabase::parse(&cpu(false)).unwrap();
    let b = KpepDatabase::parse(&cpu(true)).unwrap();
    assert_eq!(a.name, b.name);
    assert_eq!(format!("{:?}", a.events()), format!("{:?}", b.events()));
    assert_eq!(a.cpu.architecture, b.cpu.architecture);
    assert_eq!((a.cpu.fixed_counters, a.cpu.config_counters), (2, 0));
    assert_eq!((b.cpu.fixed_counters, b.cpu.config_counters), (2, 0));
    let sorted = |mut v: Vec<(String, String)>| {
        v.sort();
        v
    };
    assert_eq!(sorted(a.cpu.aliases.clone()), sorted(b.cpu.aliases.clone()));
    for name in ["a", "b", "c", "E", "G"] {
        assert_eq!(
            a.event_by_name(name).map(|e| e.name.clone()),
            b.event_by_name(name).map(|e| e.name.clone())
        );
    }
}

#[test]
fn trees_of_documents_keep_their_order() {
    match Plist::from_bytes(DOCUMENT.as_bytes()).unwrap() {
        Plist::Dictionary(entries) => {
            assert_eq!(entries.len(), 2);
            assert_eq!((entries[0].0.as_str(), entries[0].1.as_string()), ("name", Some("x")));
            assert_eq!(entries[1].0, "system");
        }
        other => panic!("{other:?}"),
    }
    assert!(Plist::from_bytes(b"").is_err());
}

#[test]
fn database_files_are_named_after_the_cpu() {
    assert_eq!(
        database_path(0x100000c, 2, 0xda33d83d),
        "/usr/share/kpep/cpu_100000c_2_da33d83d.plist"
    );
    assert_eq!(database_path(0, 0, 0), "/usr/share/kpep/cpu_0_0_0.plist");
}

#[test]
fn a_file_of_the_same_type_serves_too() {
    let files: Vec<String> = ["cpu_7_8_1.plist", "cpu_100000c_2_1.txt", "cpu_100000c_2_9.plist",
        "cpu_100000c_2_1.plist"].iter().map(|s| s.to_string()).collect();
    assert_eq!(find_database_path(0x100000c, 2, 5, &files).unwrap(), 2);
    assert!(matches!(
        find_database_path(0x100000c, 3, 5, &files),
        Err(KpepError::DatabaseNotFound { cpu_type: 0x100000c, cpu_subtype: 3, cpu_family: 5 })
    ));
}

/// Loads from a system with the given answers, and lists what it was asked.
fn load(
    sysctl: fn(&str) -> (i32, u32),
    exists: bool,
    listing: Option<Vec<&str>>,
    file: Result<&str, &str>,
) -> (Vec<String>, Result<KpepDatabase, KpepError>) {
    let mut state: CpuLoad = KpepDatabase::load_current_cpu();
    let mut asked = vec![];
    loop {
        let reply = match state.request() {
            LoadRequest::ReadSysctl(name) => {
                let (ret, value) = sysctl(&name);
                asked.push(name);
                LoadReply::Sysctl { ret, value, error: "oops".to_string() }
            }
            LoadRequest::CheckPath(path) => {
                asked.push(path);
                LoadReply::Exists(exists)
            }
            LoadRequest::ListDirectory(path) => {
                asked.push(path);
                let names = listing.clone();
                LoadReply::Listing(names.map(|v| v.iter().map(|s| s.to_string()).collect()))
            }
            LoadRequest::ReadFile(path, entry) => {
                asked.push(format!("{path} {entry:?}"));
                LoadReply::File(match file {
                    Ok(s) => Ok(s.as_bytes().to_vec()),
                    Err(s) => Err(s.to_string()),
                })
            }
        };
        match state.step(reply) {
            LoadStep::Next(next) => state = next,
            LoadStep::Done(result) => return (asked, result),
        }
    }
}

fn healthy(name: &str) -> (i32, u32) {
    match name {
        "hw.cputype" => (0, 0x100000c),
        "hw.cpusubtype" => (0, 2),
        _ => (0, 0xda33d83d),
    }
}

#[test]
fn answers_to_other_questions_change_nothing() {
    let replies = || {
        vec![
            LoadReply::Sysctl { ret: 0, value: 7, error: String::new() },
            LoadReply::Exists(true),
            LoadReply::Listing(None),
            LoadReply::File(Ok(vec![])),
        ]
    };
    let states: Vec<(fn() -> CpuLoad, usize)> = vec![
        (|| CpuLoad::CpuType, 0),
        (|| CpuLoad::CpuSubtype { cpu_type: 1 }, 0),
        (|| CpuLoad::CpuFamily { cpu_type: 1, cpu_subtype: 2 }, 0),
        (|| CpuLoad::Path { cpu_type: 1, cpu_subtype: 2, cpu_family: 3 }, 1),
        (|| CpuLoad::Directory { cpu_type: 1, cpu_subtype: 2, cpu_family: 3 }, 2),
        (|| CpuLoad::File { path: "/a".to_string(), entry: None }, 3),
    ];
    for (state, fitting) in states {
        for (i, reply) in replies().into_iter().enumerate() {
            let same = match state().step(reply) {
                LoadStep::Next(next) => format!("{next:?}") == format!("{:?}", state()),
                LoadStep::Done(_) => false,
            };
            assert_eq!(same, i != fitting, "{:?} {i}", state());
        }
    }
}

#[test]
fn the_file_of_the_cpu_is_loaded() {
    let (asked, result) = load(healthy, true, None, Ok(DOCUMENT));
    assert_eq!(
        asked,
        vec![
            "hw.cputype",
            "hw.cpusubtype",
            "hw.cpufamily",
            "/usr/share/kpep/cpu_100000c_2_da33d83d.plist",
            "/usr/share/kpep/cpu_100000c_2_da33d83d.plist None",
        ]
    );
    assert_eq!(result.unwrap().name, "x");
}

#[test]
fn another_file_of_the_directory_is_loaded() {
    let names = vec!["README", "cpu_100000c_2_1.plist", "cpu_100000c_2_2.plist"];
    let (asked, result) = load(healthy, false, Some(names), Ok(DOCUMENT));
    assert_eq!(asked[4], "/usr/share/kpep");
    assert_eq!(asked[5], "/usr/share/kpep/cpu_100000c_2_1.plist Some(1)");
    assert_eq!(result.unwrap().events().len(), 2);
}

#[test]
fn a_cpu_without_a_file_is_not_found() {
    for listing in [None, Some(vec![]), Some(vec!["cpu_100000c_20_1.plist"])] {
        let (asked, result) = load(healthy, false, listing, Ok(DOCUMENT));
        assert_eq!(asked.len(), 5);
        assert!(matches!(
            result,
            Err(KpepError::DatabaseNotFound {
                cpu_type: 0x100000c,
                cpu_subtype: 2,
                cpu_family: 0xda33d83d
            })
        ));
    }
}

#[test]
fn a_failed_query_ends_the_loading() {
    let (asked, result) = load(|_| (-1, 0), true, None, Ok(DOCUMENT));
    assert_eq!(asked, vec!["hw.cputype"]);
    assert!(matches!(result, Err(KpepError::SysctlError(s)) if s == "hw.cputype: errno oops"));
    let (asked, result) =
        load(|n| (if n == "hw.cpufamily" { 1 } else { 0 }, 1), true, None, Ok(DOCUMENT));
    assert_eq!(asked.len(), 3);
    assert!(matches!(result, Err(KpepError::SysctlError(s)) if s == "hw.cpufamily: errno oops"));
    let (asked, result) =
        load(|n| (if n == "hw.cpusubtype" { 1 } else { 0 }, 1), true, None, Ok(DOCUMENT));
    assert_eq!(asked.len(), 2);
    assert!(matches!(result, Err(KpepError::SysctlError(s)) if s == "hw.cpusubtype: errno oops"));
}

#[test]
fn a_file_that_cannot_be_read_ends_the_loading() {
    let (_, result) = load(healthy, true, None, Err("denied"));
    assert!(matches!(
        result,
        Err(KpepError::ReadError { path, source })
            if path.ends_with("da33d83d.plist") && source == "denied"
    ));
}

#[test]
fn a_listing_shows_all_there_is() {
    let db = KpepDatabase::parse(&sample()).unwrap();
    let lines = list_events(&db, None);
    assert_eq!(
        lines,
        vec![
            "CPU: Apple M2 (arm64)".to_string(),
            "Fixed counters: 2, Configurable counters: 8".to_string(),
            "".to_string(),
            "Aliases:".to_string(),
            "  Cycles -> FIXED_CYCLES".to_string(),
            "".to_string(),
            "Fixed counters:".to_string(),
            format!("  [fixed {}] {:<35} {}", 0, "FIXED_CYCLES", ""),
            "".to_string(),
            "Configurable events:".to_string(),
            format!("  [{:>3}] {:<35} ({}) {}", 140, "INST_ALL", "mask=0x80",
                "All retired instructions"),
            format!("  [{:>3}] {:<35} ({}) {}", 118, "MAP_STALL", "any slot", "Cycles stalled"),
            "".to_string(),
            "2 events listed.".to_string(),
        ]
    );
}

#[test]
fn a_listing_is_filtered_in_whatever_case() {
    let db = KpepDatabase::parse(&sample()).unwrap();
    let count = |f: &str| list_events(&db, Some(f)).last().unwrap().clone();
    assert_eq!(count("STALL"), "1 events listed.");
    assert_eq!(count("Retired"), "1 events listed.");
    assert_eq!(count("l"), "2 events listed.");
    assert_eq!(count(""), "2 events listed.");
    assert_eq!(count("fixed"), "0 events listed.");
    let e = db.event_by_name("INST_ALL").unwrap();
    assert!(passes_filter(e, Some("inst_ALL")) && !passes_filter(e, Some("inst all")));
    assert!(passes_filter(e, None));
}

#[test]
fn a_lowercase_keyword_is_sought_in_both_texts() {
    assert!(mentions("map_stall", "cycles", "_st"));
    assert!(mentions("map_stall", "cycles", "les"));
    assert!(!mentions("map_stall", "cycles", "stallc"));
    assert!(mentions("", "", ""));
}

#[test]
fn a_listing_without_aliases_or_fixed_events_is_short() {
    let cpu = dict(vec![("events", dict(vec![]))]);
    let db = KpepDatabase::parse(&dict(vec![("system", dict(vec![("cpu", cpu)]))])).unwrap();
    assert_eq!(
        list_events(&db, None),
        vec![
            "CPU: unknown (unknown)",
            "Fixed counters: 0, Configurable counters: 0",
            "",
            "Configurable events:",
            "",
            "0 events listed.",
        ]
    );
}

#[test]
fn known_events_are_selected_and_others_named() {
    let db = KpepDatabase::parse(&sample()).unwrap();
    let wanted: Vec<String> =
        ["nope", "MAP_STALL", "Cycles", "", "MAP_STALL"].iter().map(|s| s.to_string()).collect();
    let (events, unknown) = select_events(&db, &wanted);
    assert_eq!(names(&events), vec!["MAP_STALL", "FIXED_CYCLES", "MAP_STALL"]);
    assert_eq!(unknown, vec!["nope", ""]);
    let (events, unknown) = select_events(&db, &default_events());
    assert_eq!(names(&events), vec!["MAP_STALL"]);
    assert_eq!(unknown.len(), 7);
}
