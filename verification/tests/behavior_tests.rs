use tini::Error;
use tini::Ini;
use tini::ordered_hashmap::OrderedHashMap;
use tini::section::Section;

#[test]
fn round_trip_structured() -> Result<(), Error> {
    let doc = Ini::new()
        .section("first")
        .item("alpha", "1")
        .item("beta", "two words")
        .section("second")
        .item("gamma", "")
        .item("delta", "a=b");
    let text = doc.to_string();
    assert_eq!(text, "[first]\nalpha = 1\nbeta = two words\n\n[second]\ngamma = \ndelta = a=b\n");
    let back = Ini::from_string(&text)?;
    assert_eq!(back.to_string(), text);
    Ok(())
}

#[test]
fn empty_document_serializes_to_nothing() {
    assert_eq!(Ini::new().to_string(), "");
}

#[test]
fn selected_section_materializes_only_on_item() {
    let mut conf = Ini::new().section("empty");
    assert_eq!(conf.to_string(), "");
    conf = conf.section("one").item("a", "1");
    assert_eq!(conf.to_string(), "[one]\na = 1\n");
}

#[test]
fn order_preserved_on_update() -> Result<(), Error> {
    let ini = Ini::new()
        .section("s")
        .item("c", "1")
        .item("b", "2")
        .item("a", "3")
        .item("b", "9");
    let mut keys: Vec<String> = Vec::new();
    let mut values: Vec<String> = Vec::new();
    let mut it = ini.section_iter("s");
    while let Some((k, v)) = it.next() {
        keys.push(k.clone());
        values.push(v.clone());
    }
    assert_eq!(["c", "b", "a"], keys[..]);
    assert_eq!(["1", "9", "3"], values[..]);
    Ok(())
}

#[test]
fn section_dedup() -> Result<(), Error> {
    let ini = Ini::from_string("[one]\na=1\n[two]\nb=2\n[one]\nc=3")?;
    let mut names: Vec<String> = Vec::new();
    let mut it = ini.iter();
    while let Some((name, _)) = it.next() {
        names.push(name.clone());
    }
    assert_eq!(["one", "two"], names[..]);
    let mut keys: Vec<String> = Vec::new();
    let mut one = ini.section_iter("one");
    while let Some((k, _)) = one.next() {
        keys.push(k.clone());
    }
    assert_eq!(["a", "c"], keys[..]);
    Ok(())
}

#[test]
fn empty_value_in_document() -> Result<(), Error> {
    let ini = Ini::from_string("[s]\na =")?;
    assert_eq!(ini.get_raw("s", "a"), Some(&"".to_owned()));
    Ok(())
}

#[test]
fn comment_stripped_in_document() -> Result<(), Error> {
    let ini = Ini::from_string("[s]\nname = 100 ; comment")?;
    assert_eq!(ini.get_raw("s", "name"), Some(&"100".to_owned()));
    Ok(())
}

#[test]
fn absent_lookup_is_safe() -> Result<(), Error> {
    let ini = Ini::from_string("[s]\na = 1")?;
    assert_eq!(ini.get_raw("missing", "a"), None);
    assert_eq!(ini.get_raw("s", "missing"), None);
    let absent: Option<u8> = ini.get("missing", "a");
    assert_eq!(absent, None);
    let mut count: usize = 0;
    let mut it = ini.section_iter("missing");
    while let Some(_) = it.next() {
        count += 1;
    }
    assert_eq!(count, 0);
    Ok(())
}

#[test]
fn clear_removes_section() -> Result<(), Error> {
    let mut config = Ini::from_string("[one]\na = 1\n[two]\nb = 2")?;
    config = config.section("one").clear();
    assert_eq!(config.to_string(), "[two]\nb = 2\n");
    config = config.section("two").clear().item("a", "1");
    assert_eq!(config.to_string(), "[two]\na = 1\n");
    Ok(())
}

#[test]
fn erase_removes_item() -> Result<(), Error> {
    let mut config = Ini::from_string("[one]\na = 1\nb = 2")?;
    config = config.section("one").erase("b");
    assert_eq!(config.to_string(), "[one]\na = 1\n");
    Ok(())
}

#[test]
fn updating_a_value_keeps_its_line() {
    let mut conf = Ini::new().section("test").item("value", "10");
    assert_eq!(conf.to_string(), "[test]\nvalue = 10\n");
    conf = conf.section("test").item("value", "updated");
    assert_eq!(conf.to_string(), "[test]\nvalue = updated\n");
}

#[test]
fn items_appends_pairs_in_order() {
    let conf = Ini::new().section("colors").items(vec![
        ("black".to_string(), "#000000".to_string()),
        ("white".to_string(), "#ffffff".to_string()),
    ]);
    assert_eq!(conf.to_string(), "[colors]\nblack = #000000\nwhite = #ffffff\n");
}

#[test]
fn item_vec_joins_with_comma() {
    let conf = Ini::new()
        .section("default")
        .item_vec("a", &vec!["1".to_string(), "2".to_string(), "3".to_string(), "4".to_string()])
        .item_vec_with_sep("b", &vec!["a".to_string(), "b".to_string(), "c".to_string()], "|");
    assert_eq!(conf.get_raw("default", "a"), Some(&"1, 2, 3, 4".to_owned()));
    assert_eq!(conf.get_raw("default", "b"), Some(&"a|b|c".to_owned()));
    let va: Option<Vec<u8>> = conf.get_vec("default", "a");
    let vb: Vec<String> = conf.get_vec_with_sep("default", "b", "|").unwrap();
    assert_eq!(va, Some(vec![1, 2, 3, 4]));
    assert_eq!(vb, ["a", "b", "c"]);
}

#[test]
fn typed_get_parses_numbers() -> Result<(), Error> {
    let conf = Ini::from_string("[section]\none = 1")?;
    let value: Option<u8> = conf.get("section", "one");
    assert_eq!(value, Some(1));
    Ok(())
}

#[test]
fn remove_swaps_last_key_into_the_hole() {
    let mut map: OrderedHashMap<String, i32> = OrderedHashMap::new();
    map.insert("a".to_string(), 1);
    map.insert("b".to_string(), 2);
    map.insert("c".to_string(), 3);
    assert_eq!(map.remove("a"), Some(1));
    let mut keys: Vec<String> = Vec::new();
    let mut it = map.keys();
    while let Some(k) = it.next() {
        keys.push(k.clone());
    }
    assert_eq!(["c", "b"], keys[..]);
}

#[test]
fn section_into_iter_yields_owned_pairs() {
    let mut sec = Section::new();
    sec.insert("x".to_string(), "1".to_string());
    sec.insert("y".to_string(), "2".to_string());
    let mut it = sec.into_iter();
    assert_eq!(it.next(), Some(("x".to_string(), "1".to_string())));
    assert_eq!(it.next(), Some(("y".to_string(), "2".to_string())));
    assert_eq!(it.next(), None);
}

#[test]
fn crlf_lines_parse_like_plain_lines() -> Result<(), Error> {
    let ini = Ini::from_string("[s]\r\na = 1\r\nb = 2")?;
    assert_eq!(ini.get_raw("s", "a"), Some(&"1".to_owned()));
    assert_eq!(ini.get_raw("s", "b"), Some(&"2".to_owned()));
    Ok(())
}

#[test]
fn keys_before_any_header_join_the_unnamed_section() -> Result<(), Error> {
    let ini = Ini::from_string("a = 1\n[s]\nb = 2")?;
    assert_eq!(ini.get_raw("", "a"), Some(&"1".to_owned()));
    assert_eq!(ini.get_raw("s", "b"), Some(&"2".to_owned()));
    Ok(())
}

#[test]
fn comment_marks_inside_values_are_lossy() -> Result<(), Error> {
    // serialization writes the `;` out, but parsing strips it as a
    // comment, so such values sit outside the round-trip guarantee
    let doc = Ini::new().section("s").item("k", "v;w");
    assert_eq!(doc.to_string(), "[s]\nk = v;w\n");
    let back = Ini::from_string(&doc.to_string())?;
    assert_eq!(back.get_raw("s", "k"), Some(&"v".to_owned()));
    Ok(())
}

#[test]
fn splitting_keeps_empty_pieces() -> Result<(), Error> {
    let ini = Ini::from_string("[s]\nlist = a,,b")?;
    let pieces: Option<Vec<String>> = ini.get_vec("s", "list");
    assert_eq!(pieces, Some(vec!["a".to_string(), "".to_string(), "b".to_string()]));
    Ok(())
}
