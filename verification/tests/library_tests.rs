use tini::Error;
use tini::Ini;
use tini::ParseError;
use tini::ordered_hashmap::OrderedHashMap;

#[test]
fn bool() -> Result<(), Error> {
    let ini = Ini::from_string("[string]\nabc = true")?;
    let abc: Option<bool> = ini.get("string", "abc");
    assert_eq!(abc, Some(true));
    Ok(())
}

#[test]
fn float() -> Result<(), Error> {
    let ini = Ini::from_string("[section]\nname=10.5")?;
    let name: Option<f64> = ini.get("section", "name");
    assert_eq!(name, Some(10.5));
    Ok(())
}

#[test]
fn float_vec() -> Result<(), Error> {
    let ini = Ini::from_string("[section]\nname=1.2, 3.4, 5.6")?;
    let name: Option<Vec<f64>> = ini.get_vec("section", "name");
    assert_eq!(name, Some(vec![1.2, 3.4, 5.6]));
    Ok(())
}

#[test]
fn lib_empty_key() {
    match Ini::from_string("[a]\nx = 1\n=2") {
        Err(Error::Parse(ParseError::EmptyKey(index))) => assert_eq!(index, 3),
        _ => assert!(false),
    }
}

#[test]
fn invalid_section() {
    match Ini::from_string("[a]\nx = 1\ny = 2\n[b") {
        Err(Error::Parse(ParseError::IncorrectSection(index))) => assert_eq!(index, 4),
        _ => assert!(false),
    }
}

#[test]
fn invalid_syntax() {
    match Ini::from_string("[a]\n\t- b") {
        Err(Error::Parse(ParseError::IncorrectSyntax(index))) => assert_eq!(index, 2),
        _ => assert!(false),
    }
}

#[test]
fn bad_cast() {
    let ini = Ini::new().section("one").item("a", "3.14");
    let a: Option<u32> = ini.get("one", "a");
    assert_eq!(a, None);
}

#[test]
fn string_vec() -> Result<(), Error> {
    let ini = Ini::from_string("[section]\nname=a, b, c")?;
    let name: Vec<String> = ini.get_vec("section", "name").unwrap_or(vec![]);
    assert_eq!(name, ["a", "b", "c"]);
    Ok(())
}

#[test]
fn parse_error() -> Result<(), Error> {
    let ini = Ini::from_string("[section]\nlist = 1, 2, --, 4")?;
    let name: Option<Vec<u8>> = ini.get_vec("section", "list");
    assert_eq!(name, None);
    Ok(())
}

#[test]
fn get_or_macro() -> Result<(), Error> {
    let ini = Ini::from_string("[section]\nlist = 1, 2, --, 4")?;
    let with_value: Vec<u8> = ini.get_vec("section", "list").unwrap_or(vec![1, 2, 3, 4]);
    assert_eq!(with_value, [1, 2, 3, 4]);
    Ok(())
}

#[test]
fn ordering_iter() -> Result<(), Error> {
    let ini = Ini::from_string("[a]\nc = 1\nb = 2\na = 3")?;
    let mut keys: Vec<String> = Vec::new();
    let mut it = ini.section_iter("a");
    while let Some((k, _)) = it.next() {
        keys.push(k.clone());
    }
    assert_eq!(["c", "b", "a"], keys[..]);
    Ok(())
}

#[test]
fn random_access_section() -> Result<(), Error> {
    let ini = Ini::from_string("[a]\nc = 1\nb = 2\na = 3\n\n[b]\na = 1\nb = 2\nc = 3\n\n[c]\na=0\nd=4")?;
    let mut it = ini.iter();
    while let Some((name, section)) = it.next() {
        match name.as_str() {
            "a" => {
                assert_eq!(section.get("a"), Some(&"3".to_owned()));
                assert_eq!(section.get("d"), None);
            },
            "b" => {
                assert_eq!(section.get("a"), Some(&"1".to_owned()));
                assert_eq!(section.get("d"), None);
            },
            "c" => {
                assert_eq!(section.get("a"), Some(&"0".to_owned()));
                assert_eq!(section.get("b"), None);
                assert_eq!(section.get("d"), Some(&"4".to_owned()));
            },
            _ => unreachable!(),
        }
    }
    Ok(())
}

#[test]
fn get() {
    let mut map: OrderedHashMap<String, i32> = OrderedHashMap::new();
    map.insert("a".to_string(), 1);
    assert_eq!(map.get("a"), Some(&1));
    assert_eq!(map.get("b"), None);
}
