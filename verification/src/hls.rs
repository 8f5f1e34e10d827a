//! File names and stream maps of an adaptive HLS output.
use crate::config::HlsVariant;
use crate::paths::{
    components, directory_spec, file_name, file_name_spec, is_plain_name,
    law_components_follow_separators, law_file_name_is_last_component, law_file_name_is_replaced,
    lemma_file_name_is_plain, lemma_replaced_name_is_file_name, with_file_name, with_file_name_spec,
    PathPart,
};
use crate::text::{
    decimal_spec, from_chars, lemma_decimal_is_digits, lemma_split_behind_separator,
    lemma_split_single, push_decimal, split_on_spec, to_chars,
};
use vstd::prelude::*;
use vstd::string::StringExecFns;

verus! {

/// Why an adaptive HLS output cannot be set up.
#[derive(Debug)]
pub enum HlsError {
    /// The path of the playlist has no file name.
    MissingFileName,
    /// Two renditions have this name.
    DuplicateName(String),
}

/// The names of the renditions.
pub open spec fn names(variants: Seq<HlsVariant>) -> Seq<Seq<char>> {
    variants.map_values(|variant: HlsVariant| variant.name@)
}

/// Where the playlists of the renditions go. `%v` stands for the name of a
/// rendition.
pub open spec fn playlist_spec(path: Seq<char>, adaptive: bool) -> Option<Seq<char>> {
    if !adaptive {
        Some(path)
    } else {
        match file_name_spec(path) {
            Some(name) => Some(with_file_name_spec(path, "%v_"@ + name)),
            None => None,
        }
    }
}

/// Whether the name at position `i` stands at an earlier position already.
pub open spec fn is_repeated(names: Seq<Seq<char>>, i: int) -> bool {
    exists|j: int| 0 <= j < i && #[trigger] names[j] == names[i]
}

/// The entry of one rendition in the stream map.
pub open spec fn stream_entry(index: int, name: Seq<char>, subtitles: bool) -> Seq<char> {
    let streams = "v:"@ + decimal_spec(index as nat) + ",a:"@ + decimal_spec(index as nat);
    if subtitles && index == 0 {
        streams + ",s:0,sgroup:subs,name:"@ + name
    } else {
        streams + ",name:"@ + name
    }
}

/// The entries of all renditions, separated by spaces. Only the first one has
/// the subtitles.
pub open spec fn stream_map_spec(names: Seq<Seq<char>>, subtitles: bool) -> Seq<char>
    decreases names.len(),
{
    if names.len() == 0 {
        Seq::empty()
    } else {
        let entry = stream_entry(names.len() - 1, names.last(), subtitles);
        if names.len() == 1 {
            entry
        } else {
            stream_map_spec(names.drop_last(), subtitles).push(' ') + entry
        }
    }
}

/// The playlists and the segments of all renditions go to the directory of the
/// playlist that was asked for: their paths differ from each other in the file
/// name alone.
pub proof fn law_renditions_share_the_directory(path: Seq<char>)
    requires
        file_name_spec(path) is Some,
    ensures
        ({
            let name = "%v_"@ + file_name_spec(path)->Some_0;
            let segment = "%v_segment_%03d.ts"@;
            let directory = directory_spec(path);
            let prefix = if directory.len() > 0 && directory.last() != '/' {
                directory.push('/')
            } else {
                directory
            };
            &&& playlist_spec(path, true) == Some(prefix + name)
            &&& with_file_name_spec(path, segment) == prefix + segment
            &&& file_name_spec(playlist_spec(path, true)->Some_0) == Some(name)
            &&& file_name_spec(with_file_name_spec(path, segment)) == Some(segment)
        }),
{
    reveal_strlit("%v_");
    reveal_strlit("%v_segment_%03d.ts");
    let file = file_name_spec(path)->Some_0;
    let name = "%v_"@ + file;
    lemma_file_name_is_plain(path);
    assert(is_plain_name(name)) by {
        assert forall|i: int| 0 <= i < name.len() implies !crate::paths::PathUnit::is_separator(
            #[trigger] name[i],
        ) by {
            if i >= 3 {
                assert(name[i] == file[i - 3]);
            } else {
                assert(name[i] == "%v_"@[i]);
            }
        }
    }
    lemma_replaced_name_is_file_name(path, name);
    assert(is_plain_name("%v_segment_%03d.ts"@));
    lemma_replaced_name_is_file_name(path, "%v_segment_%03d.ts"@);
}

/// The stream map has one entry for each rendition, in order.
pub proof fn law_stream_map_lists_every_rendition(names: Seq<Seq<char>>, subtitles: bool)
    requires
        names.len() > 0,
        forall|i: int| 0 <= i < names.len() ==> !(#[trigger] names[i]).contains(' '),
    ensures
        split_on_spec(stream_map_spec(names, subtitles), ' ').len() == names.len(),
        forall|i: int|
            0 <= i < names.len() ==> #[trigger] split_on_spec(
                stream_map_spec(names, subtitles),
                ' ',
            )[i] == stream_entry(i, names[i], subtitles),
    decreases names.len(),
{
    let last = names.len() - 1;
    let entry = stream_entry(last, names[last], subtitles);
    assert(!entry.contains(' ')) by {
        reveal_strlit("v:");
        reveal_strlit(",a:");
        reveal_strlit(",s:0,sgroup:subs,name:");
        reveal_strlit(",name:");
        lemma_decimal_is_digits(last as nat);
        let number = decimal_spec(last as nat);
        let label = if subtitles && last == 0 {
            ",s:0,sgroup:subs,name:"@
        } else {
            ",name:"@
        };
        let name = names[last];
        assert(entry =~= "v:"@ + number + ",a:"@ + number + label + name);
        assert forall|i: int| 0 <= i < entry.len() implies entry[i] != ' ' by {
            let n = number.len();
            let l = label.len();
            if i < 2 {
                assert(entry[i] == "v:"@[i]);
            } else if i < 2 + n {
                assert(entry[i] == number[i - 2]);
            } else if i < 5 + n {
                assert(entry[i] == ",a:"@[i - 2 - n]);
            } else if i < 5 + 2 * n {
                assert(entry[i] == number[i - 5 - n]);
            } else if i < 5 + 2 * n + l {
                assert(entry[i] == label[i - 5 - 2 * n]);
            } else {
                assert(entry[i] == name[i - 5 - 2 * n - l]);
            }
        }
    }
    if names.len() == 1 {
        lemma_split_single(entry, ' ');
    } else {
        let before = names.drop_last();
        law_stream_map_lists_every_rendition(before, subtitles);
        lemma_split_behind_separator(stream_map_spec(before, subtitles), entry, ' ');
        assert forall|i: int| 0 <= i < names.len() implies #[trigger] split_on_spec(
            stream_map_spec(names, subtitles),
            ' ',
        )[i] == stream_entry(i, names[i], subtitles) by {
            if i < before.len() {
                assert(split_on_spec(stream_map_spec(before, subtitles), ' ')[i] == stream_entry(
                    i,
                    before[i],
                    subtitles,
                ));
            }
        }
    }
}

/// Each entry of the stream map takes the video and the audio stream with its
/// own number and ends with its name. Subtitles are in the first one alone, and
/// only if there are any.
pub proof fn law_entries_name_their_streams(index: nat, name: Seq<char>)
    ensures
        stream_entry(index as int, name, false) == "v:"@ + decimal_spec(index) + ",a:"@ + decimal_spec(
            index,
        ) + ",name:"@ + name,
        index > 0 ==> stream_entry(index as int, name, true) == stream_entry(
            index as int,
            name,
            false,
        ),
        stream_entry(0, name, true) == "v:0,a:0,s:0,sgroup:subs,name:"@ + name,
{
    reveal_strlit("v:");
    reveal_strlit(",a:");
    reveal_strlit(",s:0,sgroup:subs,name:");
    reveal_strlit("v:0,a:0,s:0,sgroup:subs,name:");
    assert(decimal_spec(0) =~= seq!['0']);
    assert(stream_entry(0, name, true) =~= "v:0,a:0,s:0,sgroup:subs,name:"@ + name);
}

/// Without renditions the playlist goes where it was asked for. With renditions
/// it goes to the same directory, with `%v_` before its name.
pub proof fn law_playlists_stay_in_their_directory(path: Seq<char>, last: char, name: Seq<char>)
    requires
        path.len() > 0 ==> path[0] != '.' || path.len() > 1,
        last != '/' && last != '.',
        is_plain_name(name),
    ensures
        playlist_spec(path, false) == Some(path),
        playlist_spec(path.push(last).push('/') + name, true) == Some(
            path.push(last).push('/') + ("%v_"@ + name),
        ),
        playlist_spec(name, true) == Some("%v_"@ + name),
{
    law_file_name_is_replaced(path, last, name, "%v_"@ + name);
    law_components_follow_separators(path.push(last), '/', name);
    law_file_name_is_last_component(path.push(last).push('/') + name);
    law_file_name_is_last_component(name);
    let all = path.push(last).push('/') + name;
    assert(components(all).last() == PathPart::Normal(name));
    assert(components(name).last() == PathPart::Normal(name));
}

/// Segments last two seconds and the playlist lists five of them. Renditions
/// add a master playlist, the names of their segments and their stream map.
pub proof fn law_muxer_options(path: Seq<char>, names: Seq<Seq<char>>, subtitles: bool)
    ensures
        ({
            let options = options_spec(path, names, subtitles);
            &&& options[0] == ("hls_time"@, "2"@)
            &&& options[1] == ("hls_list_size"@, "5"@)
            &&& names.len() == 0 ==> options.len() == 2
            &&& names.len() > 0 ==> {
                &&& options.len() == 5
                &&& options[2] == ("master_pl_name"@, "master.m3u8"@)
                &&& options[3] == (
                    "hls_segment_filename"@,
                    with_file_name_spec(path, "%v_segment_%03d.ts"@),
                )
                &&& options[4] == ("var_stream_map"@, stream_map_spec(names, subtitles))
            }
        }),
{
}

/// Renditions can be told apart exactly when no name is repeated.
pub proof fn law_repeated_names(names: Seq<Seq<char>>)
    ensures
        (forall|i: int| 0 <= i < names.len() ==> !is_repeated(names, i)) == (forall|i: int, j: int|
            0 <= i < names.len() && 0 <= j < names.len() && i != j ==> #[trigger] names[i]
                != #[trigger] names[j]),
{
    if forall|i: int| 0 <= i < names.len() ==> !is_repeated(names, i) {
        assert forall|i: int, j: int|
            0 <= i < names.len() && 0 <= j < names.len() && i != j implies #[trigger] names[i]
            != #[trigger] names[j] by {
            assert(!is_repeated(names, i));
            assert(!is_repeated(names, j));
        }
    }
}

/// The path of the playlist that FFmpeg is given.
pub fn playlist_path(path: &str, variants: &[HlsVariant]) -> (playlist: Result<String, HlsError>)
    ensures
        match (playlist, playlist_spec(path@, variants@.len() > 0)) {
            (Ok(playlist), Some(expected)) => playlist@ == expected,
            (Err(error), None) => error is MissingFileName,
            _ => false,
        },
{
    if variants.len() == 0 {
        return Ok(path.to_owned());
    }
    let chars = to_chars(path);
    let name = match file_name(chars.as_slice()) {
        Some(name) => name,
        None => return Err(HlsError::MissingFileName),
    };
    let mut pattern: Vec<char> = to_chars("%v_");
    proof {
        reveal_strlit("%v_");
    }
    let mut i: usize = 0;
    while i < name.len()
        invariant
            i <= name.len(),
            pattern@ == "%v_"@ + name@.take(i as int),
        decreases name.len() - i,
    {
        pattern.push(name[i]);
        i += 1;
    }
    assert(name@.take(name@.len() as int) =~= name@);
    assert(pattern@[0] == "%v_"@[0]);
    Ok(from_chars(with_file_name(chars.as_slice(), pattern.as_slice()).as_slice()))
}

/// Rejects renditions that share a name.
pub fn validate_variants(variants: &[HlsVariant]) -> (valid: Result<(), HlsError>)
    ensures
        match valid {
            Ok(_) => forall|i: int| 0 <= i < variants@.len() ==> !is_repeated(names(variants@), i),
            Err(HlsError::DuplicateName(name)) => exists|i: int|
                0 <= i < variants@.len() && #[trigger] is_repeated(names(variants@), i) && name@
                    == names(variants@)[i] && forall|k: int|
                    0 <= k < i ==> !is_repeated(names(variants@), k),
            Err(HlsError::MissingFileName) => false,
        },
{
    let ghost all = names(variants@);
    let mut i: usize = 0;
    while i < variants.len()
        invariant
            i <= variants.len(),
            all == names(variants@),
            forall|k: int| 0 <= k < i ==> !is_repeated(all, k),
        decreases variants.len() - i,
    {
        let mut j: usize = 0;
        while j < i
            invariant
                j <= i < variants.len(),
                all == names(variants@),
                forall|k: int| 0 <= k < i ==> !is_repeated(all, k),
                forall|k: int| 0 <= k < j ==> #[trigger] all[k] != all[i as int],
            decreases i - j,
        {
            if variants[j].name == variants[i].name {
                assert(all[j as int] == all[i as int]);
                assert(is_repeated(all, i as int));
                return Err(HlsError::DuplicateName(variants[i].name.clone()));
            }
            j += 1;
        }
        i += 1;
    }
    Ok(())
}

/// The pattern of the names of media segments.
pub fn segment_pattern(path: &str) -> (pattern: String)
    ensures
        pattern@ == with_file_name_spec(path@, "%v_segment_%03d.ts"@),
{
    let name = to_chars("%v_segment_%03d.ts");
    proof {
        reveal_strlit("%v_segment_%03d.ts");
    }
    from_chars(with_file_name(to_chars(path).as_slice(), name.as_slice()).as_slice())
}

/// The map from streams to renditions.
pub fn var_stream_map(variants: &[HlsVariant], include_subtitles: bool) -> (map: String)
    ensures
        map@ == stream_map_spec(names(variants@), include_subtitles),
{
    let ghost all = names(variants@);
    let mut map: String = String::new();
    let mut index: usize = 0;
    assert(all.take(0) =~= Seq::empty());
    while index < variants.len()
        invariant
            index <= variants.len(),
            all == names(variants@),
            map@ == stream_map_spec(all.take(index as int), include_subtitles),
        decreases variants.len() - index,
    {
        assert(all.take(index + 1).drop_last() =~= all.take(index as int));
        assert(all.take(index + 1).last() == variants@[index as int].name@);
        if index > 0 {
            map.push(' ');
        }
        let ghost before = map@;
        map.append("v:");
        push_decimal(&mut map, index);
        map.append(",a:");
        push_decimal(&mut map, index);
        if include_subtitles && index == 0 {
            map.append(",s:0,sgroup:subs,name:");
        } else {
            map.append(",name:");
        }
        map.append(variants[index].name.as_str());
        assert(map@ =~= before + stream_entry(
            index as int,
            variants@[index as int].name@,
            include_subtitles,
        ));
        assert(index == 0 ==> map@ =~= stream_entry(
            0,
            variants@[0].name@,
            include_subtitles,
        ));
        index += 1;
    }
    assert(all.take(all.len() as int) =~= all);
    map
}

/// An option of the HLS muxer: its name and its value.
pub struct MuxerOption {
    /// The name.
    pub name: &'static str,
    /// The value.
    pub value: String,
}

/// What a list of options says, as mathematical values.
pub open spec fn option_models(options: Seq<MuxerOption>) -> Seq<(Seq<char>, Seq<char>)> {
    options.map_values(|option: MuxerOption| (option.name@, option.value@))
}

/// The options of the HLS muxer: segments of two seconds, the latest five of
/// them in the playlist, and for renditions a master playlist, the names of
/// their segments and their streams.
pub open spec fn options_spec(path: Seq<char>, names: Seq<Seq<char>>, subtitles: bool) -> Seq<
    (Seq<char>, Seq<char>),
> {
    let common = seq![("hls_time"@, "2"@), ("hls_list_size"@, "5"@)];
    if names.len() == 0 {
        common
    } else {
        common + seq![
            ("master_pl_name"@, "master.m3u8"@),
            ("hls_segment_filename"@, with_file_name_spec(path, "%v_segment_%03d.ts"@)),
            ("var_stream_map"@, stream_map_spec(names, subtitles)),
        ]
    }
}

/// The options of the HLS muxer.
pub fn muxer_options(path: &str, variants: &[HlsVariant], include_subtitles: bool) -> (options: Vec<
    MuxerOption,
>)
    ensures
        option_models(options@) == options_spec(path@, names(variants@), include_subtitles),
{
    let mut options: Vec<MuxerOption> = Vec::new();
    options.push(MuxerOption { name: "hls_time", value: "2".to_owned() });
    options.push(MuxerOption { name: "hls_list_size", value: "5".to_owned() });
    if variants.len() > 0 {
        options.push(MuxerOption { name: "master_pl_name", value: "master.m3u8".to_owned() });
        options.push(
            MuxerOption { name: "hls_segment_filename", value: segment_pattern(path) },
        );
        options.push(
            MuxerOption {
                name: "var_stream_map",
                value: var_stream_map(variants, include_subtitles),
            },
        );
    }
    assert(option_models(options@) =~= options_spec(path@, names(variants@), include_subtitles));
    options
}

} // verus!
