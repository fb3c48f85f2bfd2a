//! Identifiers and metadata.

use wiivci_core::error::{Error, LimitFault};
use wiivci_core::meta::appxml::generate;
use wiivci_core::meta::metaxml::{patch, replacement_for, MetaOptions, LANGS};
use wiivci_core::meta::titleid::TitleIds;
use wiivci_core::pipeline::{title_meta, Region};

#[test]
fn generates_title_and_group_id() {
    let ids = wiivci_core::meta::titleid::derive(*b"RSPE");
    let xml = generate(&ids);

    assert!(xml.starts_with('\u{FEFF}'));
    assert!(xml.contains("<title_id type=\"hexBinary\" length=\"8\">0005000252535045</title_id>"));
    assert!(xml.contains("<group_id type=\"hexBinary\" length=\"4\">52535045</group_id>"));
}

#[test]
fn matches_reference_byte_length() {
    let ids = wiivci_core::meta::titleid::derive(*b"RSPE");
    let xml = generate(&ids);
    assert_eq!(xml.len(), 712);
}

#[test]
fn parses_as_xml() {
    let ids = wiivci_core::meta::titleid::derive(*b"RSPE");
    let xml = generate(&ids);
    let body = xml.strip_prefix('\u{FEFF}').unwrap();

    let mut reader = quick_xml::reader::Reader::from_str(body);
    let mut saw_end = false;
    loop {
        match reader.read_event().expect("valid xml") {
            quick_xml::events::Event::Eof => break,
            quick_xml::events::Event::End(e) if e.name().as_ref() == b"app" => {
                saw_end = true;
            }
            _ => {}
        }
    }
    assert!(saw_end);
}

/// A small `meta.xml`: a field in ordinary form, one in self-closing form, one in hexadecimal and
/// one that stays as it is.
const FIXTURE: &str = r#"<?xml version="1.0" encoding="utf-8"?>
<menu>
  <longname_en type="string" length="512">Base Long Name</longname_en>
  <shortname_en type="string" length="256"/>
  <publisher_en type="string" length="256">Base Publisher</publisher_en>
  <title_id type="hexBinary" length="8">0000000000000000</title_id>
  <untouched_field type="string" length="16">Keep Me</untouched_field>
</menu>
"#;

fn fixture_ids() -> TitleIds {
    wiivci_core::meta::titleid::derive(*b"RSPE")
}

#[test]
fn hermetic_normal_start_end_patch_and_untouched_field() {
    let ids = fixture_ids();
    let opts = MetaOptions {
        ids: &ids,
        long_name: "Rhythm Heaven Fever",
        short_name: "",
        publisher: "",
        region: 2,
        drc_use: false,
    };

    let patched = patch(FIXTURE, &opts).expect("patch succeeds");

    assert!(patched.contains(
        "<longname_en type=\"string\" length=\"512\">Rhythm Heaven Fever</longname_en>"
    ));
    // Untouched field survives byte-for-byte, including its surrounding whitespace line.
    assert!(patched.contains(
        "  <untouched_field type=\"string\" length=\"16\">Keep Me</untouched_field>\n"
    ));
}

#[test]
fn hermetic_self_closing_target_element_is_expanded_and_patched() {
    let ids = fixture_ids();
    let opts = MetaOptions {
        ids: &ids,
        long_name: "",
        short_name: "Short",
        publisher: "",
        region: 2,
        drc_use: false,
    };

    let patched = patch(FIXTURE, &opts).expect("patch succeeds");

    // Was self-closing in the fixture; must come out as Start + text + End.
    assert!(patched.contains("<shortname_en type=\"string\" length=\"256\">Short</shortname_en>"));
    assert!(!patched.contains("<shortname_en type=\"string\" length=\"256\"/>"));
}

#[test]
fn hermetic_hex_binary_length_is_binary_bytes_not_text_chars() {
    let ids = fixture_ids();
    let opts = MetaOptions {
        ids: &ids,
        long_name: "",
        short_name: "",
        publisher: "",
        region: 2,
        drc_use: false,
    };

    let patched = patch(FIXTURE, &opts).expect("valid hexBinary value must be accepted");
    assert!(patched.contains("<title_id type=\"hexBinary\" length=\"8\">0005000252535045</title_id>"));
}

#[test]
fn hermetic_over_length_value_errors_and_names_the_field() {
    let ids = fixture_ids();
    let long_name = "A".repeat(513); // one byte over the fixture's length="512"
    let opts = MetaOptions {
        ids: &ids,
        long_name: &long_name,
        short_name: "",
        publisher: "",
        region: 2,
        drc_use: false,
    };

    let err = patch(FIXTURE, &opts).expect_err("over-length value must be rejected");
    let message = err.message();
    assert!(
        message.contains("longname_en"),
        "error should name the field, got: {message}"
    );
    assert!(
        message.contains("512"),
        "error should mention the declared length, got: {message}"
    );
}

#[test]
fn hermetic_value_exactly_at_length_limit_passes() {
    let ids = fixture_ids();
    let long_name = "A".repeat(512); // exactly the fixture's length="512"
    let opts = MetaOptions {
        ids: &ids,
        long_name: &long_name,
        short_name: "",
        publisher: "",
        region: 2,
        drc_use: false,
    };

    let patched = patch(FIXTURE, &opts).expect("value at the exact limit must be accepted");
    assert!(patched.contains(&format!(
        "<longname_en type=\"string\" length=\"512\">{long_name}</longname_en>"
    )));
}

#[test]
fn identifiers_follow_from_the_disc_id() {
    let ids = wiivci_core::meta::titleid::derive(*b"RSPE");
    assert_eq!(ids.title_id, 0x0005_0002_5253_5045);
    assert_eq!(ids.group_id, 0x5253_5045);
    assert_eq!(ids.product_code, "WUP-N-RSPE");
    assert_eq!(ids.reserved_flag2, 0x5253_5045);
}

#[test]
fn every_target_field_has_its_replacement() {
    let ids = wiivci_core::meta::titleid::derive(*b"RSPE");
    let opts = MetaOptions {
        ids: &ids,
        long_name: "Long",
        short_name: "Short",
        publisher: "Nintendo",
        region: 2,
        drc_use: true,
    };
    let of = |name: &str| replacement_for(name, &opts);
    assert_eq!(of("title_id"), Some("0005000252535045".to_string()));
    assert_eq!(of("group_id"), Some("52535045".to_string()));
    assert_eq!(of("product_code"), Some("WUP-N-RSPE".to_string()));
    assert_eq!(of("region"), Some("00000002".to_string()));
    assert_eq!(of("drc_use"), Some("1".to_string()));
    assert_eq!(of("reserved_flag2"), Some("52535045".to_string()));
    for lang in LANGS {
        assert_eq!(of(&format!("longname_{lang}")), Some("Long".to_string()));
        assert_eq!(of(&format!("shortname_{lang}")), Some("Short".to_string()));
        assert_eq!(of(&format!("publisher_{lang}")), Some("Nintendo".to_string()));
    }
    assert_eq!(of("longname_xx"), None);
    assert_eq!(of("olv_accesskey"), None);
}

#[test]
fn a_byte_order_mark_and_special_characters_survive() {
    let ids = wiivci_core::meta::titleid::derive(*b"RSPE");
    let opts = MetaOptions {
        ids: &ids,
        long_name: "Salt & <Pepper>",
        short_name: "",
        publisher: "",
        region: 2,
        drc_use: false,
    };
    let base = format!("\u{FEFF}{FIXTURE}");
    let patched = patch(&base, &opts).unwrap();
    assert!(patched.starts_with('\u{FEFF}'));
    assert!(patched.contains(">Salt &amp; &lt;Pepper&gt;</longname_en>"));
    assert_eq!(patched.lines().count(), base.lines().count());
}

#[test]
fn a_hexadecimal_field_of_another_length_is_refused() {
    let ids = wiivci_core::meta::titleid::derive(*b"RSPE");
    let opts = MetaOptions {
        ids: &ids,
        long_name: "",
        short_name: "",
        publisher: "",
        region: 2,
        drc_use: false,
    };
    let base = "<menu><title_id type=\"hexBinary\" length=\"7\">00</title_id></menu>";
    assert!(matches!(
        patch(base, &opts),
        Err(Error::FormatLimit(LimitFault::MetaHex { .. }))
    ));
    assert!(patch("<menu></other>", &opts).is_err(), "broken document");
}

#[test]
fn the_title_stands_in_both_names() {
    let ids = wiivci_core::meta::titleid::derive(*b"RSPE");
    let patched = title_meta(FIXTURE, &ids, "Fever", Region::Usa, true).unwrap();
    assert!(patched.contains("length=\"512\">Fever</longname_en>"));
    assert!(patched.contains("length=\"256\">Fever</shortname_en>"));
    assert!(patched.contains("length=\"256\"></publisher_en>"));
}
