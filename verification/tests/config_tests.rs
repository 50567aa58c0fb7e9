use axconfig_gen::{Config, ConfigErr, ConfigValue, OutputFormat};

const SPEC_A: &str = "
# Architecture identifier.
arch = \"x86_64\"        # str
# Number of CPUs.
smp = 1                 # uint

[devices]
# MMIO ranges.
mmio-regions = [[\"0xb000_0000\", \"0x1000_0000\"]]  # [(uint, uint)]
";

const SPEC_B: &str = "
plat = \"x86_64-qemu-q35\"  # str

[kernel]
stack-size = \"0x10000\"     # uint
";

#[test]
fn test_from_toml_and_lookup() {
    let cfg = Config::from_toml(SPEC_A).unwrap();
    let item = cfg.config_at("__GLOBAL__", "arch").unwrap();
    assert_eq!(item.value().to_toml(), "\"x86_64\"");
    let item = cfg.config_at("devices", "mmio-regions").unwrap();
    assert_eq!(item.key(), "mmio-regions");
    assert!(cfg.config_at("devices", "missing").is_none());
    assert!(cfg.table_at("nope").is_none());
}

#[test]
fn test_merge_disjoint_commutes() {
    let a = Config::from_toml(SPEC_A).unwrap();
    let b = Config::from_toml(SPEC_B).unwrap();

    let mut ab = Config::from_toml(SPEC_A).unwrap();
    ab.merge(&b).unwrap();
    let mut ba = Config::from_toml(SPEC_B).unwrap();
    ba.merge(&a).unwrap();

    let out_ab = ab.dump(OutputFormat::Toml).unwrap();
    let out_ba = ba.dump(OutputFormat::Toml).unwrap();
    assert_eq!(out_ab, out_ba);
}

#[test]
fn test_merge_duplicate_rejected() {
    let mut a = Config::from_toml("ARCH = \"x86_64\"\n").unwrap();
    let b = Config::from_toml("ARCH = \"riscv64\"\n").unwrap();
    // The error names the offending key.
    match a.merge(&b) {
        Err(ConfigErr::DuplicateKey(key)) => assert_eq!(key, "ARCH"),
        other => panic!("expected a duplicate key, got {:?}", other.err()),
    }
    // The failed merge left the receiver unchanged.
    let item = a.config_at("__GLOBAL__", "ARCH").unwrap();
    assert_eq!(item.value().to_toml(), "\"x86_64\"");

    let mut b2 = Config::from_toml("ARCH = \"riscv64\"\n").unwrap();
    let a2 = Config::from_toml("ARCH = \"x86_64\"\n").unwrap();
    assert!(matches!(b2.merge(&a2), Err(ConfigErr::DuplicateKey(_))));
    let item = b2.config_at("__GLOBAL__", "ARCH").unwrap();
    assert_eq!(item.value().to_toml(), "\"riscv64\"");
}

#[test]
fn test_update_type_gating() {
    // A declared type adopts the old value when it matches.
    let mut cur = Config::from_toml("smp = 1  # uint\nplain = 7\n").unwrap();
    let old = Config::from_toml("smp = 4\nplain = 99\nextra = 1\n").unwrap();
    let (untouched, extra) = cur.update(&old).unwrap();
    assert_eq!(cur.config_at("__GLOBAL__", "smp").unwrap().value().to_toml(), "4");
    // An item with no declared type is never altered.
    assert_eq!(
        cur.config_at("__GLOBAL__", "plain").unwrap().value().to_toml(),
        "7"
    );
    assert!(untouched.is_empty());
    assert_eq!(extra, vec![("__GLOBAL__".to_string(), "extra".to_string())]);
}

#[test]
fn test_update_mismatch_fails_whole() {
    let mut cur = Config::from_toml("x = 1  # uint\n").unwrap();
    let old = Config::from_toml("x = \"abc\"\n").unwrap();
    // The error names the key and the expected type.
    match cur.update(&old) {
        Err(ConfigErr::ValueTypeMismatch(key, expected)) => {
            assert_eq!(key, "x");
            assert_eq!(expected, "uint");
        },
        other => panic!("expected a type mismatch, got {:?}", other.err()),
    }
    // The failed reconciliation left the current value unchanged.
    assert_eq!(cur.config_at("__GLOBAL__", "x").unwrap().value().to_toml(), "1");
}

#[test]
fn test_update_sign_permissive() {
    // An integer satisfies `uint` whatever its sign: only inference looks
    // at negativity, so reconciliation adopts a negative value here.
    let mut cur = Config::from_toml("x = 1  # uint\n").unwrap();
    let old = Config::from_toml("x = -5\n").unwrap();
    cur.update(&old).unwrap();
    assert_eq!(cur.config_at("__GLOBAL__", "x").unwrap().value().to_toml(), "-5");
}

#[test]
fn test_update_reports_untouched() {
    let mut cur = Config::from_toml("a = 1  # uint\nb = 2\n").unwrap();
    let old = Config::from_toml("a = 3\n").unwrap();
    let (untouched, extra) = cur.update(&old).unwrap();
    assert_eq!(untouched, vec![("__GLOBAL__".to_string(), "b".to_string())]);
    assert!(extra.is_empty());
}

#[test]
fn test_point_write() {
    let mut cfg = Config::from_toml("smp = 1  # uint\n").unwrap();
    let v = ConfigValue::new("8").unwrap();
    cfg.write("__GLOBAL__", "smp", v).unwrap();
    assert_eq!(cfg.config_at("__GLOBAL__", "smp").unwrap().value().to_toml(), "8");

    let bad = ConfigValue::new("\"not a number\"").unwrap();
    match cfg.write("__GLOBAL__", "smp", bad) {
        Err(ConfigErr::ValueTypeMismatch(key, expected)) => {
            assert_eq!(key, "smp");
            assert_eq!(expected, "uint");
        },
        other => panic!("expected a type mismatch, got {:?}", other.err()),
    }
    let v2 = ConfigValue::new("1").unwrap();
    assert!(matches!(
        cfg.write("__GLOBAL__", "missing", v2),
        Err(ConfigErr::NotFound)
    ));
}

#[test]
fn test_new_table_errors() {
    let mut cfg = Config::new();
    cfg.new_table("devices", "").unwrap();
    assert!(matches!(
        cfg.new_table("devices", ""),
        Err(ConfigErr::DuplicateTable(_))
    ));
    assert!(matches!(cfg.new_table("__GLOBAL__", ""), Err(ConfigErr::Other(_))));
}

#[test]
fn test_parse_errors() {
    assert!(matches!(Config::from_toml("= bad"), Err(ConfigErr::Parse(_))));
    assert!(matches!(
        Config::from_toml("a = 1\na = 2\n"),
        Err(ConfigErr::Parse(_))
    ));
    assert!(matches!(
        Config::from_toml("a = 1\n[t]\nb = 2.5\n"),
        Err(ConfigErr::InvalidValue)
    ));
    assert!(matches!(
        Config::from_toml("a = 1  # nonsense\n"),
        Err(ConfigErr::InvalidType)
    ));
    match Config::from_toml("a = true  # uint\n") {
        Err(ConfigErr::ValueTypeMismatch(_, expected)) => assert_eq!(expected, "uint"),
        other => panic!("expected a type mismatch, got {:?}", other.err()),
    }
}

#[test]
fn test_round_trip_render() {
    let cfg = Config::from_toml(SPEC_A).unwrap();
    let text = cfg.dump(OutputFormat::Toml).unwrap();
    let again = Config::from_toml(&text).unwrap();
    let text2 = again.dump(OutputFormat::Toml).unwrap();
    assert_eq!(text, text2);

    // Declared and inferred types survive the round trip.
    let t1 = again
        .config_at("__GLOBAL__", "smp")
        .unwrap()
        .value()
        .ty()
        .unwrap()
        .to_annot_string();
    assert_eq!(t1, "uint");
}

#[test]
fn test_dump_rust_format() {
    let cfg = Config::from_toml("arch = \"x86_64\"  # str\nsmp = 2\n").unwrap();
    let out = cfg.dump(OutputFormat::Rust).unwrap();
    assert!(out.contains("pub const ARCH: &str = \"x86_64\";"));
    assert!(out.contains("pub const SMP: usize = 2;"));

    // An empty array infers no type, which the Rust renderer must refuse.
    let bad = Config::from_toml("empty = []\n").unwrap();
    assert!(matches!(bad.dump(OutputFormat::Rust), Err(ConfigErr::Other(_))));
    // In TOML form the same configuration still renders.
    assert!(bad.dump(OutputFormat::Toml).is_ok());
}

#[test]
fn test_write_cmd_parsing() {
    let (t, k, v) = axconfig_gen::parse_config_write_cmd("devices.mmio=123").unwrap();
    assert_eq!((t.as_str(), k.as_str(), v.as_str()), ("devices", "mmio", "123"));
    let (t, k, v) = axconfig_gen::parse_config_write_cmd("smp=4").unwrap();
    assert_eq!((t.as_str(), k.as_str(), v.as_str()), ("__GLOBAL__", "smp", "4"));
    assert!(axconfig_gen::parse_config_write_cmd("no-equals").is_err());
}

#[test]
fn test_output_format_names() {
    assert_eq!(OutputFormat::from_name("toml"), Some(OutputFormat::Toml));
    assert_eq!(OutputFormat::from_name("rust"), Some(OutputFormat::Rust));
    assert_eq!(OutputFormat::from_name("json"), None);
    assert_eq!(OutputFormat::Toml.name(), "toml");
}

#[test]
fn test_const_and_mod_names() {
    assert_eq!(axconfig_gen::output::const_name("mmio-regions"), "MMIO_REGIONS");
    assert_eq!(axconfig_gen::output::mod_name("pci-devices"), "pci_devices");
}

#[test]
fn test_empty_config_dump() {
    let cfg = Config::new();
    assert_eq!(cfg.dump(OutputFormat::Toml).unwrap(), "");
    assert_eq!(cfg.dump(OutputFormat::Rust).unwrap(), "");
}

#[test]
fn test_merge_into_existing_table() {
    let mut a = Config::from_toml("[t]\nx = 1\n").unwrap();
    let b = Config::from_toml("[t]\ny = 2\n").unwrap();
    a.merge(&b).unwrap();
    assert_eq!(a.config_at("t", "x").unwrap().value().to_toml(), "1");
    assert_eq!(a.config_at("t", "y").unwrap().value().to_toml(), "2");

    // The same table keys collide.
    let c = Config::from_toml("[t]\nx = 3\n").unwrap();
    assert!(matches!(a.merge(&c), Err(ConfigErr::DuplicateKey(_))));
    assert_eq!(a.config_at("t", "x").unwrap().value().to_toml(), "1");
}
