use hl::error::Error;
use hl::maps::map_base;
use hl::steamid::SteamId;
use hl::tfclass::TfClass;

// b4nny, as a well-known public account id.
const ACCOUNT: u32 = 2006;

#[test]
fn version_suffixes_that_used_to_be_missed() {
    // No digit after the letters, and still a version.
    assert_eq!(map_base("koth_product_rcx"), "product");
    // A version of a version.
    assert_eq!(map_base("pl_badwater_pro_v12"), "badwater");
    assert_eq!(map_base("pl_badwater_pro_v9"), "badwater");
    // A gamemode prefix the list did not know.
    assert_eq!(map_base("tow_tetsudo_b10a"), "tetsudo");
    // And the ordinary ones still work.
    assert_eq!(map_base("pl_upward_f12"), "upward");
    assert_eq!(map_base("koth_ashville_final1"), "ashville");
    assert_eq!(map_base("cp_steel_f12"), "steel");
}

#[test]
fn a_name_that_merely_looks_like_a_version_survives() {
    assert_eq!(map_base("koth_pro_viaduct_rc4"), "pro_viaduct");
    assert_eq!(map_base("cp_process_final"), "process");
    assert_eq!(map_base("pl_upward"), "upward");
}

#[test]
fn a_version_comes_off_and_a_name_does_not() {
    assert_eq!(map_base("pl_upward_f12"), "upward");
    assert_eq!(map_base("pl_upward_rc7"), "upward");
    assert_eq!(map_base("koth_product_final"), "product");
    assert_eq!(map_base("koth_proot_b5b"), "proot");
    assert_eq!(map_base("cp_steel_f12"), "steel");
    // Not versions: the last word is part of the name.
    assert_eq!(map_base("pl_swiftwater"), "swiftwater");
    assert_eq!(map_base("koth_ashville_final1"), "ashville");
    assert_eq!(map_base("cp_gullywash"), "gullywash");
}

#[test]
fn a_map_without_a_prefix_or_version_is_itself() {
    assert_eq!(map_base("upward"), "upward");
    assert_eq!(map_base(""), "");
    assert_eq!(map_base("PL_Upward_F12"), "upward");
}

#[test]
fn round_trips_through_every_format() {
    let id = SteamId::from_account_id(ACCOUNT);
    assert_eq!(SteamId::parse(&id.to_steamid64()).unwrap(), id);
    assert_eq!(SteamId::parse(&id.to_steamid3()).unwrap(), id);
    assert_eq!(SteamId::parse(&id.to_steamid2()).unwrap(), id);
}

#[test]
fn known_conversion_is_exact() {
    let id = SteamId::parse("76561197960265729").unwrap();
    assert_eq!(id.account_id(), 1);
    assert_eq!(id.to_steamid3(), "[U:1:1]");
    assert_eq!(id.to_steamid2(), "STEAM_0:1:0");
}

#[test]
fn accepts_unbracketed_steamid3_and_profile_urls() {
    let a = SteamId::parse("U:1:2006").unwrap();
    let b = SteamId::parse("[U:1:2006]").unwrap();
    let c = SteamId::parse("https://steamcommunity.com/profiles/76561197960267734/").unwrap();
    assert_eq!(a, b);
    assert_eq!(b, c);
}

#[test]
fn rejects_junk() {
    assert!(SteamId::parse("").is_err());
    assert!(SteamId::parse("not-an-id").is_err());
    assert!(SteamId::parse("STEAM_0:9:5").is_err());
    assert!(SteamId::parse("123").is_ok()); // bare account id is allowed
}

#[test]
fn steamid64_formats_are_exact() {
    let id = SteamId::from_account_id(ACCOUNT);
    assert_eq!(id.to_steamid64(), "76561197960267734");
    assert_eq!(id.to_steamid3(), "[U:1:2006]");
    assert_eq!(id.to_steamid2(), "STEAM_0:0:1003");
    assert_eq!(id.as_u64(), 76_561_197_960_267_734);
    assert_eq!(SteamId::from_u64(76_561_197_960_267_734).unwrap(), id);
    assert!(SteamId::from_u64(5).is_err());
}

#[test]
fn parses_logstf_spelling_of_heavy() {
    assert_eq!(TfClass::parse("heavyweapons").unwrap(), TfClass::Heavy);
    assert_eq!(TfClass::parse("Heavy").unwrap(), TfClass::Heavy);
    assert_eq!(TfClass::Heavy.as_str(), "heavy");
}

#[test]
fn every_class_round_trips_through_as_str() {
    for c in TfClass::all() {
        assert_eq!(TfClass::parse(c.as_str()).unwrap(), c);
    }
}

#[test]
fn highlander_lineup_is_nine_distinct_classes() {
    let mut seen = TfClass::all().to_vec();
    seen.sort();
    seen.dedup();
    assert_eq!(seen.len(), 9);
}

#[test]
fn an_unknown_class_is_an_error() {
    assert_eq!(TfClass::parse(" Spy ").unwrap(), TfClass::Spy);
    assert!(TfClass::parse("civilian").is_err());
    assert!(TfClass::parse("").is_err());
}

#[test]
fn each_failure_has_a_kind_and_a_message() {
    let e = TfClass::parse(" Civilian ").unwrap_err();
    assert!(matches!(&e, Error::UnknownClass(m) if m == "civilian"));
    assert_eq!(e.kind(), "unknown_class");
    assert_eq!(e.message(), "unknown TF2 class: civilian");
    let e = SteamId::parse("not-an-id").unwrap_err();
    assert_eq!(e.kind(), "invalid_steamid");
    assert!(e.message().starts_with("invalid SteamID: "));
    assert_eq!(Error::InvalidTfPath("C:/x".to_string()).kind(), "invalid_tf_path");
    assert_eq!(Error::MissingConfig("steamid").message(), "config key not set: steamid");
}

#[test]
fn display_names_lowercase_to_the_stored_names() {
    for c in TfClass::all() {
        let d = c.display_name();
        assert_eq!(d.to_ascii_lowercase(), c.as_str());
        assert_eq!(TfClass::parse(d).unwrap(), c);
        assert!(d.starts_with(|ch: char| ch.is_ascii_uppercase()));
    }
}
