//! The manifest `code/app.xml` of an injected title.

use vstd::prelude::*;

use crate::meta::titleid::TitleIds;
use crate::text::{
    law_fixed_hex_reads_back, lemma_hex_widths, number_of, push_upper_hex_fixed, upper_hex_fixed,
};

verus! {

/// The manifest up to the title id.
pub const APP_XML_HEAD: &'static str = "\u{FEFF}<?xml version=\"1.0\" encoding=\"utf-8\"?>\n<app type=\"complex\" access=\"777\">\n  <version type=\"unsignedInt\" length=\"4\">16</version>\n  <os_version type=\"hexBinary\" length=\"8\">000500101000400A</os_version>\n  <title_id type=\"hexBinary\" length=\"8\">";

/// The manifest between the title id and the group id.
pub const APP_XML_MIDDLE: &'static str = "</title_id>\n  <title_version type=\"hexBinary\" length=\"2\">0000</title_version>\n  <sdk_version type=\"unsignedInt\" length=\"4\">21204</sdk_version>\n  <app_type type=\"hexBinary\" length=\"4\">8000002E</app_type>\n  <group_id type=\"hexBinary\" length=\"4\">";

/// The manifest behind the group id.
pub const APP_XML_TAIL: &'static str = "</group_id>\n  <os_mask type=\"hexBinary\" length=\"32\">0000000000000000000000000000000000000000000000000000000000000000</os_mask>\n  <common_id type=\"hexBinary\" length=\"8\">0000000000000000</common_id>\n</app>";

/// The manifest of a title.
pub open spec fn app_xml(title_id: u64, group_id: u32) -> Seq<char> {
    APP_XML_HEAD@ + upper_hex_fixed(title_id as nat, 16) + APP_XML_MIDDLE@ + upper_hex_fixed(
        group_id as nat,
        8,
    ) + APP_XML_TAIL@
}

/// Build the manifest of a title: a fixed text around the title id and the group id.
pub fn generate(ids: &TitleIds) -> (r: String)
    ensures
        r@ == app_xml(ids.title_id, ids.group_id),
{
    let mut r: String = String::from_str(APP_XML_HEAD);
    push_upper_hex_fixed(&mut r, ids.title_id, 16);
    r.append(APP_XML_MIDDLE);
    push_upper_hex_fixed(&mut r, ids.group_id as u64, 8);
    r.append(APP_XML_TAIL);
    assert(r@ =~= app_xml(ids.title_id, ids.group_id));
    r
}

/// The manifest states the title id in sixteen hexadecimal digits between the tags `title_id` and
/// the group id in eight between the tags `group_id`. Read as numbers they give the ids back, so
/// no two titles share a manifest.
pub proof fn law_manifest_states_the_ids(title_id: u64, group_id: u32)
    ensures
        ({
            let text = app_xml(title_id, group_id);
            let a = APP_XML_HEAD@.len() as int;
            let b = a + 16 + APP_XML_MIDDLE@.len();
            &&& text.len() == b + 8 + APP_XML_TAIL@.len()
            &&& text.subrange(0, a) == APP_XML_HEAD@
            &&& number_of(text.subrange(a, a + 16), 16) == title_id
            &&& text.subrange(a + 16, b) == APP_XML_MIDDLE@
            &&& number_of(text.subrange(b, b + 8), 16) == group_id
            &&& text.subrange(b + 8, text.len() as int) == APP_XML_TAIL@
        }),
{
    let text = app_xml(title_id, group_id);
    let a = APP_XML_HEAD@.len() as int;
    let b = a + 16 + APP_XML_MIDDLE@.len();
    lemma_hex_widths();
    law_fixed_hex_reads_back(title_id as nat, 16);
    law_fixed_hex_reads_back(group_id as nat, 8);
    assert(text.subrange(0, a) =~= APP_XML_HEAD@);
    assert(text.subrange(a, a + 16) =~= upper_hex_fixed(title_id as nat, 16));
    assert(text.subrange(a + 16, b) =~= APP_XML_MIDDLE@);
    assert(text.subrange(b, b + 8) =~= upper_hex_fixed(group_id as nat, 8));
    assert(text.subrange(b + 8, text.len() as int) =~= APP_XML_TAIL@);
}

} // verus!
