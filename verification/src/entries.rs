//! Which files of a shader pack are entry files, by their names: the
//! programs of the pipeline, each in one file for each stage.

use vstd::prelude::*;
use crate::directive::{find_last, last_index_of};
use crate::parser::{capture_groups, regex_captures};
use crate::text::{chars_eq, is_number, number_of, parse_decimal, slice_chars, to_chars};

verus! {

/// Whether `ext` is the extension of a stage.
pub open spec fn is_stage_extension(ext: Seq<char>) -> bool {
    ||| ext == "fsh"@
    ||| ext == "vsh"@
    ||| ext == "gsh"@
    ||| ext == "csh"@
}

/// Whether `stem` is the name of a program that stands alone.
pub open spec fn is_single_program(stem: Seq<char>) -> bool {
    ||| stem == "composite_pre"@
    ||| stem == "deferred_pre"@
    ||| stem == "final"@
    ||| stem == "gbuffers_armor_glint"@
    ||| stem == "gbuffers_basic"@
    ||| stem == "gbuffers_beaconbeam"@
    ||| stem == "gbuffers_block"@
    ||| stem == "gbuffers_clouds"@
    ||| stem == "gbuffers_damagedblock"@
    ||| stem == "gbuffers_entities"@
    ||| stem == "gbuffers_entities_glowing"@
    ||| stem == "gbuffers_hand"@
    ||| stem == "gbuffers_hand_water"@
    ||| stem == "gbuffers_item"@
    ||| stem == "gbuffers_line"@
    ||| stem == "gbuffers_skybasic"@
    ||| stem == "gbuffers_skytextured"@
    ||| stem == "gbuffers_spidereyes"@
    ||| stem == "gbuffers_terrain"@
    ||| stem == "gbuffers_terrain_cutout"@
    ||| stem == "gbuffers_terrain_cutout_mip"@
    ||| stem == "gbuffers_terrain_solid"@
    ||| stem == "gbuffers_textured"@
    ||| stem == "gbuffers_textured_lit"@
    ||| stem == "gbuffers_water"@
    ||| stem == "gbuffers_weather"@
    ||| stem == "shadow"@
    ||| stem == "shadow_cutout"@
    ||| stem == "shadow_solid"@
}

/// Whether `rest` is nothing, or a number from 1 to 99 without a leading
/// zero.
pub open spec fn is_pass_number(rest: Seq<char>) -> bool {
    rest.len() == 0 || (is_number(rest) && rest[0] != '0' && 1 <= number_of(rest) <= 99)
}

/// Whether `rest` is what may follow the name of a program that runs in
/// passes: the number of the pass, and for a compute shader then a low
/// line and one letter from `a` to `z`.
pub open spec fn is_pass_suffix(rest: Seq<char>, compute: bool) -> bool {
    ||| is_pass_number(rest)
    ||| (compute && rest.len() >= 2 && rest[rest.len() - 2] == '_' && 'a' <= rest.last() <= 'z'
        && is_pass_number(rest.subrange(0, rest.len() - 2)))
}

/// Whether `stem` begins with `base` and goes on as the name of a pass.
pub open spec fn is_pass_of(stem: Seq<char>, base: Seq<char>, compute: bool) -> bool {
    base.len() <= stem.len() && stem.subrange(0, base.len() as int) == base && is_pass_suffix(
        stem.subrange(base.len() as int, stem.len() as int),
        compute,
    )
}

/// Whether `stem` is the name of a program that runs in passes.
pub open spec fn is_pass_program(stem: Seq<char>, compute: bool) -> bool {
    ||| is_pass_of(stem, "composite"@, compute)
    ||| is_pass_of(stem, "deferred"@, compute)
    ||| is_pass_of(stem, "prepare"@, compute)
    ||| is_pass_of(stem, "shadowcomp"@, compute)
}

/// Whether a file of the name `name` is an entry file: a program that stands
/// alone or runs in passes, with the extension of a stage.
pub open spec fn is_entry_name(name: Seq<char>) -> bool {
    let dot = last_index_of(name, '.');
    dot >= 0 && {
        let stem = name.subrange(0, dot);
        let ext = name.subrange(dot + 1, name.len() as int);
        is_stage_extension(ext) && (is_single_program(stem) || is_pass_program(
            stem,
            ext == "csh"@,
        ))
    }
}

/// The pattern of the name of a folder that holds the entry files of one
/// dimension.
pub const DIMENSION_FOLDER: &'static str = r"^world-?\d+";

/// Whether a folder of the name `name` holds the entry files of one
/// dimension.
pub open spec fn is_dimension_folder(name: Seq<char>) -> bool {
    regex_captures(DIMENSION_FOLDER@, name) is Some
}

/// Whether `rest` is nothing, or a number from 1 to 99 without a leading zero.
fn pass_number(rest: &Vec<char>) -> (r: bool)
    ensures
        r == is_pass_number(rest@),
{
    if rest.len() == 0 {
        return true;
    }
    if rest[0] == '0' {
        return false;
    }
    match parse_decimal(rest) {
        Some(n) => 1 <= n && n <= 99,
        None => {
            assert(!(is_number(rest@) && number_of(rest@) <= 99));
            false
        },
    }
}

/// Whether `rest` is what may follow the name of a program that runs in
/// passes.
fn pass_suffix(rest: &Vec<char>, compute: bool) -> (r: bool)
    ensures
        r == is_pass_suffix(rest@, compute),
{
    if pass_number(rest) {
        return true;
    }
    if !compute || rest.len() < 2 {
        return false;
    }
    let n = rest.len();
    let letter = rest[n - 1];
    if rest[n - 2] != '_' || !('a' <= letter && letter <= 'z') {
        return false;
    }
    let number = slice_chars(rest, 0, n - 2);
    pass_number(&number)
}

/// Whether `stem` begins with `base` and goes on as the name of a pass.
fn pass_of(stem: &Vec<char>, base: &Vec<char>, compute: bool) -> (r: bool)
    ensures
        r == is_pass_of(stem@, base@, compute),
{
    if base.len() > stem.len() {
        return false;
    }
    let head = slice_chars(stem, 0, base.len());
    if !chars_eq(&head, base) {
        return false;
    }
    let rest = slice_chars(stem, base.len(), stem.len());
    pass_suffix(&rest, compute)
}

/// Whether a file of the name `name` is an entry file.
pub fn entry_name(name: &str) -> (r: bool)
    ensures
        r == is_entry_name(name@),
{
    let chars = to_chars(name);
    let dot = match find_last(&chars, '.') {
        Some(dot) => dot,
        None => {
            return false;
        },
    };
    let stem = slice_chars(&chars, 0, dot);
    let ext = slice_chars(&chars, dot + 1, chars.len());
    let compute = chars_eq(&ext, &to_chars("csh"));
    let stage = chars_eq(&ext, &to_chars("fsh"))
        || chars_eq(&ext, &to_chars("vsh"))
        || chars_eq(&ext, &to_chars("gsh"))
        || chars_eq(&ext, &to_chars("csh"));
    if !stage {
        return false;
    }
    let single = chars_eq(&stem, &to_chars("composite_pre"))
        || chars_eq(&stem, &to_chars("deferred_pre"))
        || chars_eq(&stem, &to_chars("final"))
        || chars_eq(&stem, &to_chars("gbuffers_armor_glint"))
        || chars_eq(&stem, &to_chars("gbuffers_basic"))
        || chars_eq(&stem, &to_chars("gbuffers_beaconbeam"))
        || chars_eq(&stem, &to_chars("gbuffers_block"))
        || chars_eq(&stem, &to_chars("gbuffers_clouds"))
        || chars_eq(&stem, &to_chars("gbuffers_damagedblock"))
        || chars_eq(&stem, &to_chars("gbuffers_entities"))
        || chars_eq(&stem, &to_chars("gbuffers_entities_glowing"))
        || chars_eq(&stem, &to_chars("gbuffers_hand"))
        || chars_eq(&stem, &to_chars("gbuffers_hand_water"))
        || chars_eq(&stem, &to_chars("gbuffers_item"))
        || chars_eq(&stem, &to_chars("gbuffers_line"))
        || chars_eq(&stem, &to_chars("gbuffers_skybasic"))
        || chars_eq(&stem, &to_chars("gbuffers_skytextured"))
        || chars_eq(&stem, &to_chars("gbuffers_spidereyes"))
        || chars_eq(&stem, &to_chars("gbuffers_terrain"))
        || chars_eq(&stem, &to_chars("gbuffers_terrain_cutout"))
        || chars_eq(&stem, &to_chars("gbuffers_terrain_cutout_mip"))
        || chars_eq(&stem, &to_chars("gbuffers_terrain_solid"))
        || chars_eq(&stem, &to_chars("gbuffers_textured"))
        || chars_eq(&stem, &to_chars("gbuffers_textured_lit"))
        || chars_eq(&stem, &to_chars("gbuffers_water"))
        || chars_eq(&stem, &to_chars("gbuffers_weather"))
        || chars_eq(&stem, &to_chars("shadow"))
        || chars_eq(&stem, &to_chars("shadow_cutout"))
        || chars_eq(&stem, &to_chars("shadow_solid"));
    if single {
        return true;
    }
    pass_of(&stem, &to_chars("composite"), compute)
        || pass_of(&stem, &to_chars("deferred"), compute)
        || pass_of(&stem, &to_chars("prepare"), compute)
        || pass_of(&stem, &to_chars("shadowcomp"), compute)
}

/// Whether a folder of the name `name` holds the entry files of one
/// dimension.
pub fn dimension_folder(name: &str) -> (r: bool)
    ensures
        r == is_dimension_folder(name@),
{
    capture_groups(DIMENSION_FOLDER, name).is_some()
}

} // verus!
