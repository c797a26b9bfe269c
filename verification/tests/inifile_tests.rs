use rust_examples::inifile::IniError;
use rust_examples::inifile::IniFile;
use rust_examples::inifile::split_lines;

static CONFIG: &str = "; Comment line before section1\n[section1]\n; name=value\nvalue11=string 11\nvalue=another\n\n[section2]\nkey=value\n\n[Booleans]\ntrue1=yes\ntrue2=on\ntrue3=1\nfalse1=no\nfalse2=off\nfalse3=0\n\n[Integers]\ninteger0=0\ninteger1=1\ninteger2=2\ninteger3=03\n\n[Floats]\nfloat01=0.1\nfloat11=1.1\nfloat20=2.0\nfloat30=3.0\n";

fn load() -> IniFile {
    let mut ini = IniFile::new();
    ini.read_string(split_lines(CONFIG)).unwrap();
    ini
}

#[test]
#[allow(non_snake_case)]
fn defaultFilepathIsEmpty() {
    let ini = IniFile::new();
    let expected = "".to_string();
    let found = ini.filepath();
    assert!(
        expected == found,
        "Default file path must be \"\", not \"{}\".",
        found
    );
}

#[test]
fn inifile_filepath() {
    let mut ini = load();
    ini.set_path("data/config.ini");
    let expected = "data/config.ini".to_string();
    let found = ini.filepath();
    assert!(
        expected == found,
        "Default file path must be \"{}\", not \"{}\".",
        expected,
        found
    );
}

#[test]
fn inifile_sections_length() {
    let ini = load();
    let expected = 5;
    let sections = ini.sections();
    let found = sections.len();
    assert!(expected == found, "{} sections are expected, not {}.", expected, found);
}

#[test]
fn inifile_sections_names() {
    let ini = load();
    let expected = vec![
        "section1".to_string(),
        "section2".to_string(),
        "Booleans".to_string(),
        "Integers".to_string(),
        "Floats".to_string(),
    ];
    let found = ini.sections();
    assert!(expected == found, "Sections must be \"{:?}\", not {:?}.", expected, found);
}

#[test]
fn inifile_has_option_true() {
    let ini = load();
    let found = ini.has_option("section1", "value11");
    assert!(found, "Option \"value11\" in section [section1] must be found!");
}

#[test]
fn inifile_has_option_false() {
    let ini = load();
    let found = ini.has_option("section1", "unknown key");
    assert!(!found, "Option \"unknown key\" in section [section1] must not be found!");
}

#[test]
fn inifile_has_section_true() {
    let ini = load();
    let found = ini.has_section("section1");
    assert!(found, "Section section1 must be found!");
}

#[test]
fn inifile_has_section_false() {
    let ini = load();
    let found = ini.has_section("unknown section");
    assert!(!found, "Section \"unknown section\" must not be found!");
}

#[test]
fn inifile_get() {
    let ini = load();
    let expected = "string 11".to_string();
    let found = ini.get("section1", "value11").unwrap();
    assert!(
        expected == found,
        "[section1] value11 must be \"{}\", not \"{}\".",
        expected,
        found
    );
}

#[test]
fn inifile_get_bool_true() {
    let ini = load();
    let options = ["true1", "true2", "true3"];
    for key in options.iter() {
        let found = ini.get_bool("Booleans", key).unwrap();
        assert!(found, "[Booleans] {:?} must be true.", key);
    }
}

#[test]
fn inifile_get_bool_false() {
    let ini = load();
    let options = ["false1", "false2", "false3"];
    for key in options.iter() {
        let found = ini.get_bool("Booleans", key).unwrap();
        assert!(!found, "[Booleans] {:?} must be false.", key);
    }
}

#[test]
fn inifile_get_bool_fail() {
    let ini = load();
    assert_eq!(ini.get_bool("section1", "value11"), Err(IniError::NotABoolean));
}

#[test]
fn inifile_get_int() {
    let ini = load();
    let test: [(&str, isize); 4] =
        [("integer0", 0), ("integer1", 1), ("integer2", 2), ("integer3", 03)];
    for (key, expected) in test.iter() {
        let found = ini.get_int("Integers", key).unwrap();
        assert!(
            (expected * 1) == found,
            "[Integers] {:?} must be \"{:?}\", not \"{:?}\".",
            key,
            expected,
            found
        );
    }
}

#[test]
fn inifile_get_int_fail() {
    let ini = load();
    assert_eq!(ini.get_int("section1", "value11"), Err(IniError::NotAnInteger));
}

#[test]
fn inifile_add_section() {
    let mut ini = load();
    let expected = vec![
        "section1".to_string(),
        "section2".to_string(),
        "Booleans".to_string(),
        "Integers".to_string(),
        "Floats".to_string(),
    ];
    let found = ini.sections();
    assert!(expected == found, "Sections must be \"{:?}\", not {:?}.", expected, found);
    ini.add_section("New section").unwrap();
    let expected2 = vec![
        "section1".to_string(),
        "section2".to_string(),
        "Booleans".to_string(),
        "Integers".to_string(),
        "Floats".to_string(),
        "New section".to_string(),
    ];
    let found2 = ini.sections();
    assert!(expected2 == found2, "Sections must be \"{:?}\", not {:?}.", expected2, found2);
}

#[test]
fn inifile_add_section_twice() {
    let mut ini = load();
    ini.add_section("New section").unwrap();
    assert_eq!(ini.add_section("New section"), Err(IniError::SectionExists));
}

#[test]
fn inifile_remove_section() {
    let mut ini = load();
    ini.remove_section("section1".to_string());
    let expected = vec![
        "section2".to_string(),
        "Booleans".to_string(),
        "Integers".to_string(),
        "Floats".to_string(),
    ];
    let found = ini.sections();
    assert!(expected == found, "Sections must be \"{:?}\", not {:?}.", expected, found);
}

#[test]
fn inifile_set() {
    let mut ini = load();
    ini.set("section1".to_string(), "value2".to_string(), "string 2".to_string()).unwrap();
    let expected = "string 2".to_string();
    let found = ini.get("section1", "value2").unwrap();
    assert!(
        expected == found,
        "[section1] value2 must be \"{}\", not \"{}\".",
        expected,
        found
    );
}

#[test]
fn inifile_options() {
    let ini = load();
    let expected = vec!["value11".to_string(), "value".to_string()];
    let found = ini.options("section1".to_string());
    assert!(
        expected == found,
        "Items of [section1] must be \"{:?}\", not {:?}.",
        expected,
        found
    );
}

#[test]
fn to_str() {
    let ini = load();
    let found = ini.to_string();
    let expected = CONFIG.to_string();
    assert_eq!(expected, found);
}
