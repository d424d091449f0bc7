use yaml_hash::{LookupError, MergeStrError, Value, YamlHash};

#[test]
fn display() {
    let hash = YamlHash::new();
    assert_eq!(hash.render(), "{}");
}

#[test]
fn to_string() {
    let hash = YamlHash::new();
    assert_eq!(hash.render(), "{}");
}

#[test]
fn merge_str() {
    let hash = YamlHash::new();
    let yaml = "fruit:\n  apple: 1\n  banana: 2".to_string();
    let hash = hash.merge_str(&yaml).unwrap();
    assert_eq!(hash.render(), yaml);
}

#[test]
fn merge_multiple_str_str_no_conflicts() {
    let hash = YamlHash::new();

    let yaml1 = "fruit:\n  apple: 1\n  banana: 2";
    let yaml2 = "fruit:\n  cherry: 3";

    let result = "fruit:\n  apple: 1\n  banana: 2\n  cherry: 3";

    let hash = hash.merge_str(yaml1).unwrap();
    let hash = hash.merge_str(yaml2).unwrap();

    assert_eq!(hash.render(), result);
}

#[test]
fn merge_multiple_str_str_with_conflict() {
    let hash = YamlHash::new();

    let yaml1 = "fruit:\n  apple: 1\n  banana: 2";
    let yaml2 = "fruit:\n  banana: 3";

    let result = "fruit:\n  apple: 1\n  banana: 3";

    let hash = hash.merge_str(yaml1).unwrap();
    let hash = hash.merge_str(yaml2).unwrap();

    assert_eq!(hash.render(), result);
}

#[test]
fn merge_multiple_str_str_with_conflict_2() {
    let hash = YamlHash::new();

    let yaml1 = "fruit:\n  apple: 1\n  banana: 2";
    let yaml2 = "fruit:\n  apple: 3";

    let result = "fruit:\n  apple: 3\n  banana: 2";

    let hash = hash.merge_str(yaml1).unwrap();
    let hash = hash.merge_str(yaml2).unwrap();

    assert_eq!(hash.render(), result);
}

#[test]
fn merge_multiple_str_str_with_conflict_3() {
    let hash = YamlHash::new();

    let yaml1 = "fruit:\n  apple: 1\n  banana: 2\n  cherry: 3";
    let yaml2 = "fruit:\n  banana: 4";

    let result = "fruit:\n  apple: 1\n  banana: 4\n  cherry: 3";

    let hash = hash.merge_str(yaml1).unwrap();
    let hash = hash.merge_str(yaml2).unwrap();

    assert_eq!(hash.render(), result);
}

#[test]
fn merge_multiple_str_str_no_conflicts_deep() {
    let hash = YamlHash::new();

    let yaml1 = "fruit:\n  apple: 1\n  banana: 2\n  cherry:\n    sweet: 1";
    let yaml2 = "fruit:\n  cherry:\n    tart: 2";

    let result = "fruit:\n  apple: 1\n  banana: 2\n  cherry:\n    sweet: 1\n    tart: 2";

    let hash = hash.merge_str(yaml1).unwrap();
    let hash = hash.merge_str(yaml2).unwrap();

    assert_eq!(hash.render(), result);
}

#[test]
fn merge_multiple_str_str_with_conflict_deep() {
    let hash = YamlHash::new();

    let yaml1 = "fruit:\n  apple: 1\n  banana: 2\n  cherry:\n    sweet: 1";
    let yaml2 = "fruit:\n  cherry:\n    sweet: 2";

    let result = "fruit:\n  apple: 1\n  banana: 2\n  cherry:\n    sweet: 2";

    let hash = hash.merge_str(yaml1).unwrap();
    let hash = hash.merge_str(yaml2).unwrap();

    assert_eq!(hash.render(), result);
}

#[test]
fn get() {
    let hash = YamlHash::new();

    let hash = hash
        .merge_str("fruit:\n  apple: 1\n  banana: 2\n  cherry:\n    sweet: 3")
        .unwrap();

    let fruit = hash.get("fruit").unwrap();
    assert_eq!(
        fruit.render(),
        "apple: 1\nbanana: 2\ncherry:\n  sweet: 3"
    );

    let apple = fruit.get_yaml("apple").unwrap();
    assert_eq!(apple, Value::Int(1));

    let banana = fruit.get_yaml("banana").unwrap();
    assert_eq!(banana, Value::Int(2));

    let cherry = fruit.get("cherry").unwrap();
    assert_eq!(cherry.render(), "sweet: 3");

    let sweet = cherry.get_yaml("sweet").unwrap();
    assert_eq!(sweet, Value::Int(3));

    let sweet2 = hash.get_yaml("fruit.cherry.sweet").unwrap();
    assert_eq!(sweet2, Value::Int(3));
}

#[test]
fn merge_containers() {
    let hash = YamlHash::new()
        .merge_str("fruit:\n  apple: 1\n  banana: 2")
        .unwrap();
    let other = YamlHash::new()
        .merge_str("fruit:\n  cherry:\n    sweet: 1\n    tart: 2")
        .unwrap();
    assert_eq!(
        hash.merge(&other).render(),
        "fruit:\n  apple: 1\n  banana: 2\n  cherry:\n    sweet: 1\n    tart: 2"
    );
}

#[test]
fn merge_idempotent() {
    let hash = YamlHash::new()
        .merge_str("fruit:\n  apple: 1\n  cherry:\n    sweet: 3")
        .unwrap();
    let copy = hash.clone();
    assert_eq!(hash.merge(&copy), hash);
    assert_eq!(hash.merge(&copy).render(), hash.render());
}

#[test]
fn merge_additive_union() {
    let hash = YamlHash::new().merge_str("a: 1").unwrap();
    let hash = hash.merge_str("b: 2").unwrap();
    assert_eq!(hash.render(), "a: 1\nb: 2");
}

#[test]
fn merge_right_bias_scalar() {
    let hash = YamlHash::new().merge_str("a: 1").unwrap();
    let hash = hash.merge_str("a: 2").unwrap();
    assert_eq!(hash.render(), "a: 2");
}

#[test]
fn merge_mapping_over_scalar() {
    let hash = YamlHash::new().merge_str("a: 1").unwrap();
    let hash = hash.merge_str("a:\n  x: 1").unwrap();
    assert_eq!(hash.render(), "a:\n  x: 1");
}

#[test]
fn merge_scalar_over_mapping() {
    let hash = YamlHash::new().merge_str("a:\n  x: 1").unwrap();
    let hash = hash.merge_str("a: 1").unwrap();
    assert_eq!(hash.render(), "a: 1");
}

#[test]
fn round_trip() {
    let hash = YamlHash::new()
        .merge_str("fruit:\n  apple: 1\n  banana: 2\n  cherry:\n    sweet: 3\nnote: hello")
        .unwrap();
    let again = YamlHash::new().merge_str(&hash.render()).unwrap();
    assert_eq!(again, hash);
}

#[test]
fn round_trip_scalars_and_sequences() {
    let hash = YamlHash::new()
        .merge_str("a: 1.5\nb:\n- one\n- 2\nc: true\nd: ~")
        .unwrap();
    assert_eq!(hash.get_yaml("c").unwrap(), Value::Bool(true));
    assert_eq!(hash.get_yaml("d").unwrap(), Value::Null);
    assert_eq!(hash.get_yaml("a").unwrap(), Value::Real("1.5".to_string()));
    let again = YamlHash::new().merge_str(&hash.render()).unwrap();
    assert_eq!(again, hash);
}

#[test]
fn merge_str_multiple_documents() {
    let hash = YamlHash::new()
        .merge_str("---\na: 1\n---\na: 2\nb: 3")
        .unwrap();
    assert_eq!(hash.render(), "a: 2\nb: 3");
}

#[test]
fn merge_str_parse_error() {
    let hash = YamlHash::new();
    let r = hash.merge_str("a: [1, 2");
    assert!(matches!(r, Err(MergeStrError::Parse(_))));
}

#[test]
fn merge_str_not_a_mapping() {
    let hash = YamlHash::new();
    let r = hash.merge_str("- 1\n- 2");
    assert_eq!(r.unwrap_err(), MergeStrError::NotAMapping);
}

#[test]
fn lookup_empty_path_returns_root() {
    let hash = YamlHash::new()
        .merge_str("fruit:\n  apple: 1")
        .unwrap();
    assert_eq!(hash.get("").unwrap(), hash);
}

#[test]
fn lookup_value_nested() {
    let hash = YamlHash::new()
        .merge_str("fruit:\n  apple: 1\n  banana: 2\n  cherry:\n    sweet: 1\n    tart: 2")
        .unwrap();
    assert_eq!(hash.get_yaml("fruit.cherry.tart").unwrap(), Value::Int(2));
}

#[test]
fn lookup_absent_key() {
    let hash = YamlHash::new()
        .merge_str("fruit:\n  apple: 1\n  cherry:\n    sweet: 1")
        .unwrap();
    assert_eq!(
        hash.get_yaml("fruit.cherry.missing").unwrap_err(),
        LookupError::KeyNotFound("fruit.cherry.missing".to_string())
    );
}

#[test]
fn lookup_through_scalar() {
    let hash = YamlHash::new()
        .merge_str("fruit:\n  apple: 1")
        .unwrap();
    assert_eq!(
        hash.get_yaml("fruit.apple.x").unwrap_err(),
        LookupError::NotAMapping("fruit.apple".to_string())
    );
}

#[test]
fn lookup_empty_segment_is_a_key() {
    let hash = YamlHash::new()
        .merge_str("fruit:\n  apple: 1")
        .unwrap();
    assert_eq!(
        hash.get_yaml("fruit..x").unwrap_err(),
        LookupError::KeyNotFound("fruit.".to_string())
    );
}

#[test]
fn get_on_scalar_value() {
    let hash = YamlHash::new()
        .merge_str("fruit:\n  apple: 1")
        .unwrap();
    assert_eq!(
        hash.get("fruit.apple").unwrap_err(),
        LookupError::NotAMapping("fruit.apple".to_string())
    );
}
