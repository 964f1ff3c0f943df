use mcshader_lsp::entries::{dimension_folder, entry_name};
use std::collections::HashSet;

fn default_shaders() -> HashSet<String> {
    let mut set = HashSet::with_capacity(1716);
    for ext in ["fsh", "vsh", "gsh", "csh"] {
        set.insert(format!("composite.{}", ext));
        set.insert(format!("deferred.{}", ext));
        set.insert(format!("prepare.{}", ext));
        set.insert(format!("shadowcomp.{}", ext));
        for i in 1..=99 {
            let total_suffix = format!("{}.{}", i, ext);
            set.insert(format!("composite{}", total_suffix));
            set.insert(format!("deferred{}", total_suffix));
            set.insert(format!("prepare{}", total_suffix));
            set.insert(format!("shadowcomp{}", total_suffix));
        }
        set.insert(format!("composite_pre.{}", ext));
        set.insert(format!("deferred_pre.{}", ext));
        set.insert(format!("final.{}", ext));
        set.insert(format!("gbuffers_armor_glint.{}", ext));
        set.insert(format!("gbuffers_basic.{}", ext));
        set.insert(format!("gbuffers_beaconbeam.{}", ext));
        set.insert(format!("gbuffers_block.{}", ext));
        set.insert(format!("gbuffers_clouds.{}", ext));
        set.insert(format!("gbuffers_damagedblock.{}", ext));
        set.insert(format!("gbuffers_entities.{}", ext));
        set.insert(format!("gbuffers_entities_glowing.{}", ext));
        set.insert(format!("gbuffers_hand.{}", ext));
        set.insert(format!("gbuffers_hand_water.{}", ext));
        set.insert(format!("gbuffers_item.{}", ext));
        set.insert(format!("gbuffers_line.{}", ext));
        set.insert(format!("gbuffers_skybasic.{}", ext));
        set.insert(format!("gbuffers_skytextured.{}", ext));
        set.insert(format!("gbuffers_spidereyes.{}", ext));
        set.insert(format!("gbuffers_terrain.{}", ext));
        set.insert(format!("gbuffers_terrain_cutout.{}", ext));
        set.insert(format!("gbuffers_terrain_cutout_mip.{}", ext));
        set.insert(format!("gbuffers_terrain_solid.{}", ext));
        set.insert(format!("gbuffers_textured.{}", ext));
        set.insert(format!("gbuffers_textured_lit.{}", ext));
        set.insert(format!("gbuffers_water.{}", ext));
        set.insert(format!("gbuffers_weather.{}", ext));
        set.insert(format!("shadow.{}", ext));
        set.insert(format!("shadow_cutout.{}", ext));
        set.insert(format!("shadow_solid.{}", ext));
    }
    for suffix_char in 'a'..='z' {
        set.insert(format!("composite_{}.csh", suffix_char));
        set.insert(format!("deferred_{}.csh", suffix_char));
        set.insert(format!("prepare_{}.csh", suffix_char));
        set.insert(format!("shadowcomp_{}.csh", suffix_char));
        for i in 1..=99 {
            let total_suffix = format!("{}_{}", i, suffix_char);
            set.insert(format!("composite{}.csh", total_suffix));
            set.insert(format!("deferred{}.csh", total_suffix));
            set.insert(format!("prepare{}.csh", total_suffix));
            set.insert(format!("shadowcomp{}.csh", total_suffix));
        }
    }
    set
}

#[test]
fn every_name_of_an_entry_file_is_known() {
    let set = default_shaders();
    assert_eq!(set.len(), 12116);
    for name in &set {
        assert!(entry_name(name), "{}", name);
    }
}

#[test]
fn no_other_name_is_taken_for_an_entry_file() {
    let set = default_shaders();
    let stems = [
        "composite", "deferred", "prepare", "shadowcomp", "final", "shadow", "gbuffers_basic",
        "gbuffers_terrain_cutout_mip", "composite_pre", "gbuffers", "common", "",
    ];
    let tails = [
        "", "0", "1", "9", "10", "99", "100", "00", "01", "007", "1a", "a", "_a", "_z", "_A", "_aa",
        "_", "1_a", "99_z", "100_a", "0_a", "01_a", "1_", "1__a", "_1", "_pre", "-1", "+1", " 1",
        "\u{661}", "1_\u{e9}",
    ];
    let exts = [".fsh", ".vsh", ".gsh", ".csh", ".glsl", ".FSH", ".fsh ", "", ".", ".csh.bak", ".fsh.fsh"];
    let mut seen = 0;
    for stem in stems {
        for tail in tails {
            for ext in exts {
                let name = format!("{}{}{}", stem, tail, ext);
                assert_eq!(entry_name(&name), set.contains(&name), "{:?}", name);
                seen += 1;
            }
        }
    }
    assert_eq!(seen, 12 * 31 * 11);
    for name in ["fsh", ".fsh", "final", "final.", "Final.fsh", "final.fsh/", "x/final.fsh", "shaders"] {
        assert_eq!(entry_name(name), set.contains(name), "{:?}", name);
    }
}

#[test]
fn folders_of_dimensions_begin_with_world_and_a_number() {
    for name in ["world0", "world1", "world-1", "world12", "world-12", "world1x", "world-1/", "world0 "] {
        assert!(dimension_folder(name), "{}", name);
    }
    for name in ["world", "world-", "world--1", "World1", " world1", "xworld1", "worlds1", "world_1", "", "1"] {
        assert!(!dimension_folder(name), "{}", name);
    }
}
