use rust_examples::inifile::IniError;
use rust_examples::inifile::IniFile;
use rust_examples::inifile::split_lines;

#[test]
fn parsing_scenario() {
    let mut ini = IniFile::new();
    let lines = vec![
        "[section1]".to_string(),
        "value11=string 11".to_string(),
        "value=another".to_string(),
    ];
    ini.read_string(lines).unwrap();
    assert_eq!(ini.sections(), vec!["section1".to_string()]);
    assert_eq!(
        ini.options("section1".to_string()),
        vec!["value11".to_string(), "value".to_string()]
    );
    assert_eq!(ini.get("section1", "value11").unwrap(), "string 11".to_string());
}

#[test]
fn round_trip() {
    let text = "; leading comment\n\n[alpha]\n# about a\na=1\nempty=\n[beta]\n; about b\nb=two words\n";
    let mut ini = IniFile::new();
    ini.read_string(split_lines(text)).unwrap();
    let rendered = ini.to_string();
    let mut again = IniFile::new();
    again.read_string(split_lines(rendered.as_str())).unwrap();
    assert_eq!(again.sections(), ini.sections());
    for sec in ini.sections() {
        assert_eq!(again.options(sec.clone()), ini.options(sec.clone()));
        for key in ini.options(sec.clone()) {
            assert_eq!(again.get(sec.as_str(), key.as_str()), ini.get(sec.as_str(), key.as_str()));
        }
    }
    assert_eq!(again.to_string(), rendered);
}

#[test]
fn set_is_idempotent() {
    let mut ini = IniFile::new();
    ini.add_section("s".to_string().as_str()).unwrap();
    ini.set("s".to_string(), "a".to_string(), "1".to_string()).unwrap();
    ini.set("s".to_string(), "k".to_string(), "v".to_string()).unwrap();
    let before = ini.options("s".to_string());
    ini.set("s".to_string(), "k".to_string(), "v".to_string()).unwrap();
    let after = ini.options("s".to_string());
    assert_eq!(before.len(), after.len());
    assert_eq!(before, after);
    assert_eq!(ini.get("s", "k").unwrap(), "v".to_string());
}

#[test]
fn order_preservation() {
    let mut ini = IniFile::new();
    ini.add_section("zeta").unwrap();
    ini.add_section("alpha").unwrap();
    ini.add_section("midway").unwrap();
    assert_eq!(
        ini.sections(),
        vec!["zeta".to_string(), "alpha".to_string(), "midway".to_string()]
    );
    ini.set("alpha".to_string(), "z".to_string(), "1".to_string()).unwrap();
    ini.set("alpha".to_string(), "a".to_string(), "2".to_string()).unwrap();
    ini.set("alpha".to_string(), "z".to_string(), "3".to_string()).unwrap();
    assert_eq!(ini.options("alpha".to_string()), vec!["z".to_string(), "a".to_string()]);
}

#[test]
fn existence_symmetry() {
    let mut ini = IniFile::new();
    ini.add_section("s").unwrap();
    ini.set("s".to_string(), "k".to_string(), "v".to_string()).unwrap();
    assert!(ini.has_option("s", "k") == ini.get("s", "k").is_ok());
    assert!(ini.has_option("s", "absent") == ini.get("s", "absent").is_ok());
    assert!(ini.has_option("nowhere", "k") == ini.get("nowhere", "k").is_ok());
}

#[test]
fn missing_delimiter_rejects_whole_input() {
    let mut ini = IniFile::new();
    let lines = vec!["[s]".to_string(), "no delimiter here".to_string()];
    assert_eq!(ini.read_string(lines), Err(IniError::MissingDelimiter));
    assert!(ini.sections().is_empty());
}

#[test]
fn structural_errors() {
    let mut ini = IniFile::new();
    assert_eq!(
        ini.set("ghost".to_string(), "k".to_string(), "v".to_string()),
        Err(IniError::NoSuchSection)
    );
    assert_eq!(
        ini.remove_option("ghost".to_string(), "k".to_string()),
        Err(IniError::NoSuchSection)
    );
    assert_eq!(ini.get("ghost", "k"), Err(IniError::MissingOption));
    assert!(!ini.remove_section("ghost".to_string()));
}

#[test]
fn remove_option_keeps_neighbours() {
    let mut ini = IniFile::new();
    ini.add_section("s").unwrap();
    ini.set("s".to_string(), "a".to_string(), "1".to_string()).unwrap();
    ini.set("s".to_string(), "b".to_string(), "2".to_string()).unwrap();
    ini.set("s".to_string(), "c".to_string(), "3".to_string()).unwrap();
    assert_eq!(ini.remove_option("s".to_string(), "b".to_string()), Ok(true));
    assert_eq!(ini.options("s".to_string()), vec!["a".to_string(), "c".to_string()]);
    assert_eq!(ini.get("s", "a").unwrap(), "1".to_string());
    assert_eq!(ini.get("s", "c").unwrap(), "3".to_string());
    assert_eq!(ini.remove_option("s".to_string(), "b".to_string()), Ok(false));
}

#[test]
fn remove_section_scenario() {
    let mut ini = IniFile::new();
    ini.add_section("section1").unwrap();
    ini.add_section("section2").unwrap();
    assert_eq!(ini.sections(), vec!["section1".to_string(), "section2".to_string()]);
    assert!(ini.remove_section("section1".to_string()));
    assert_eq!(ini.sections(), vec!["section2".to_string()]);
}

#[test]
fn serialize_single_pair() {
    let mut ini = IniFile::new();
    ini.add_section("section1").unwrap();
    ini.set("section1".to_string(), "key1".to_string(), "value1".to_string()).unwrap();
    assert_eq!(ini.to_string(), "[section1]\nkey1=value1\n".to_string());
}

#[test]
fn get_int_edges() {
    let mut ini = IniFile::new();
    ini.add_section("n").unwrap();
    ini.set("n".to_string(), "neg".to_string(), "-12".to_string()).unwrap();
    ini.set("n".to_string(), "spaced".to_string(), " 7 ".to_string()).unwrap();
    ini.set("n".to_string(), "plus".to_string(), "+5".to_string()).unwrap();
    ini.set("n".to_string(), "huge".to_string(), "99999999999999999999999999".to_string()).unwrap();
    ini.set("n".to_string(), "empty".to_string(), "".to_string()).unwrap();
    ini.set("n".to_string(), "signonly".to_string(), "-".to_string()).unwrap();
    assert_eq!(ini.get_int("n", "neg"), Ok(-12));
    assert_eq!(ini.get_int("n", "spaced"), Ok(7));
    assert_eq!(ini.get_int("n", "plus"), Ok(5));
    assert_eq!(ini.get_int("n", "huge"), Err(IniError::NotAnInteger));
    assert_eq!(ini.get_int("n", "empty"), Err(IniError::NotAnInteger));
    assert_eq!(ini.get_int("n", "signonly"), Err(IniError::NotAnInteger));
    assert_eq!(ini.get_int("n", "missing"), Err(IniError::MissingOption));
}

#[test]
fn duplicate_key_keeps_position() {
    let mut ini = IniFile::new();
    let lines = vec![
        "[s]".to_string(),
        "k=1".to_string(),
        "other=x".to_string(),
        "k=2".to_string(),
    ];
    ini.read_string(lines).unwrap();
    assert_eq!(ini.options("s".to_string()), vec!["k".to_string(), "other".to_string()]);
    assert_eq!(ini.get("s", "k").unwrap(), "2".to_string());
}

#[test]
fn reopened_section_appends() {
    let mut ini = IniFile::new();
    let lines = vec![
        "[a]".to_string(),
        "x=1".to_string(),
        "[b]".to_string(),
        "y=2".to_string(),
        "[a]".to_string(),
        "z=3".to_string(),
    ];
    ini.read_string(lines).unwrap();
    assert_eq!(ini.sections(), vec!["a".to_string(), "b".to_string()]);
    assert_eq!(ini.options("a".to_string()), vec!["x".to_string(), "z".to_string()]);
}

#[test]
fn split_lines_edges() {
    assert_eq!(split_lines(""), Vec::<String>::new());
    assert_eq!(split_lines("a\nb"), vec!["a".to_string(), "b".to_string()]);
    assert_eq!(split_lines("a\nb\n"), vec!["a".to_string(), "b".to_string()]);
    assert_eq!(split_lines("a\r\n\n"), vec!["a".to_string(), "".to_string()]);
    assert_eq!(split_lines("\n"), vec!["".to_string()]);
}

#[test]
fn default_section_absorbs_leading_pairs() {
    let mut ini = IniFile::new();
    let lines = vec!["stray=pair".to_string(), "[named]".to_string(), "k=v".to_string()];
    ini.read_string(lines).unwrap();
    assert_eq!(ini.sections(), vec!["Default".to_string(), "named".to_string()]);
    assert_eq!(ini.get("Default", "stray").unwrap(), "pair".to_string());
}
