//! What a package that is to be written says of itself, by what was asked for.
use crate::source::FileSource;
use crate::stfs::format::ContentType;
use crate::stfs::layout::{add_files, add_path, tree_of, NodeModel, PlanError};
use crate::stfs::plan::{plan_error, planned_blocks};
use crate::stfs::write::{
    is_opened, opt_text, IdentityOverrides, SourceHeader, StfsWriteError, StfsWriteSession,
    TitleInfo,
};
use crate::utils::paths::components;
use crate::utils::text::hex_digits;
use vstd::prelude::*;

verus! {

/// A field holds what was asked for, else what the source's header says, else zeros.
pub open spec fn is_resolved<const N: usize>(
    field: Seq<u8>,
    asked: Option<[u8; N]>,
    original: Option<[u8; N]>,
) -> bool {
    match asked {
        Some(a) => field == a@,
        None => match original {
            Some(o) => field == o@,
            None => field.len() == N && forall|i: int|
                0 <= i < field.len() ==> #[trigger] field[i] == 0,
        },
    }
}

/// The identity fields of a package are those that were asked for; where none was, those of the
/// source's header; and zeros where that has none. The license entries are the header's.
pub proof fn identity_is_what_was_asked_for<F: FileSource>(
    files: F,
    content_type: Option<ContentType>,
    name: Option<String>,
    title_id: Option<u32>,
    identity: IdentityOverrides,
    signed: bool,
    original: SourceHeader,
    probe: Option<TitleInfo>,
    needs_executable: bool,
    listed_name: Option<String>,
    made: u32,
    s: StfsWriteSession<F>,
)
    requires
        is_opened(
            files,
            content_type,
            name,
            title_id,
            identity,
            signed,
            original,
            probe,
            needs_executable,
            listed_name,
            made,
            Ok::<StfsWriteSession<F>, StfsWriteError>(s),
        ),
    ensures
        is_resolved(s.console_id@, identity.console_id, original.console_id),
        is_resolved(s.profile_id@, identity.profile_id, original.profile_id),
        is_resolved(s.device_id@, identity.device_id, original.device_id),
        is_resolved(s.online_creator@, identity.online_creator, original.online_creator),
        is_resolved(s.license_entries@, None, original.license_entries),
        s.signed == signed,
        s.created_timestamp == made,
        s.files.paths() == files.paths(),
        s.files.contents() == files.contents(),
{
}

/// The title id of a package is the one that was asked for, else that of its executable, else
/// zero, and the package is named after it in eight hexadecimal digits. What else its executable
/// says is kept only if no title id was asked for. Its name is the one that was asked for, else
/// that of the source's header, else the one under which its title is listed.
pub proof fn title_is_what_was_asked_for<F: FileSource>(
    files: F,
    content_type: Option<ContentType>,
    name: Option<String>,
    title_id: Option<u32>,
    identity: IdentityOverrides,
    signed: bool,
    original: SourceHeader,
    probe: Option<TitleInfo>,
    needs_executable: bool,
    listed_name: Option<String>,
    made: u32,
    s: StfsWriteSession<F>,
)
    requires
        is_opened(
            files,
            content_type,
            name,
            title_id,
            identity,
            signed,
            original,
            probe,
            needs_executable,
            listed_name,
            made,
            Ok::<StfsWriteSession<F>, StfsWriteError>(s),
        ),
    ensures
        title_id matches Some(id) ==> s.title_id == id && s.execution_info is None,
        title_id is None && probe is Some ==> s.title_id == probe->0.execution_info.title_id
            && s.execution_info == Some(probe->0.execution_info),
        title_id is None && probe is None ==> s.title_id == 0 && s.execution_info is None,
        s.output_name@ == hex_digits(s.title_id as nat, 8),
        name is Some ==> opt_text(s.display_name) == Some(name->0@),
        name is None && original.display_name is Some ==> opt_text(s.display_name) == Some(
            original.display_name->0@,
        ),
        name is None && original.display_name is None && listed_name is Some ==> opt_text(
            s.display_name,
        ) == Some(listed_name->0@),
        name is None && original.display_name is None && listed_name is None
            ==> s.display_name is None,
{
}

/// The content type of a package is the one that was asked for, else that of the source's header,
/// else that of its executable, if no title id was asked for; else the number in the source's
/// header, and 0x7000 if there is none. What a source says of an avatar item or of a video is kept
/// for those alone; its installer trailer always is.
pub proof fn content_type_is_what_was_asked_for<F: FileSource>(
    files: F,
    content_type: Option<ContentType>,
    name: Option<String>,
    title_id: Option<u32>,
    identity: IdentityOverrides,
    signed: bool,
    original: SourceHeader,
    probe: Option<TitleInfo>,
    needs_executable: bool,
    listed_name: Option<String>,
    made: u32,
    s: StfsWriteSession<F>,
)
    requires
        is_opened(
            files,
            content_type,
            name,
            title_id,
            identity,
            signed,
            original,
            probe,
            needs_executable,
            listed_name,
            made,
            Ok::<StfsWriteSession<F>, StfsWriteError>(s),
        ),
    ensures
        content_type matches Some(t) ==> s.content_type == number_of(t),
        content_type is None && original.content_type is Some ==> s.content_type == number_of(
            original.content_type->0,
        ),
        content_type is None && original.content_type is None && title_id is None && probe is Some
            ==> s.content_type == number_of(probe->0.content_type),
        content_type is None && original.content_type is None && (title_id is Some || probe is None)
            ==> s.content_type == (match original.raw_content_type {
            Some(v) => v,
            None => 0x7000,
        }),
        s.avatar_item_metadata is Some ==> s.content_type == 0x9000,
        content_type == Some(ContentType::AvatarItem) ==> s.avatar_item_metadata
            == original.avatar_item_metadata,
        s.video_metadata is Some ==> s.content_type == 0x9_0000,
        content_type == Some(ContentType::Video) ==> s.video_metadata == original.video_metadata,
        content_type is None && original.content_type == Some(ContentType::AvatarItem)
            ==> s.avatar_item_metadata == original.avatar_item_metadata,
        content_type is None && original.content_type == Some(ContentType::Video)
            ==> s.video_metadata == original.video_metadata,
        s.installer_metadata == original.installer_metadata,
        s.layout.header_size == (if original.installer_metadata is Some {
            0xAD0Eint
        } else {
            0x971A
        }),
{
}

/// The number of a content type.
pub open spec fn number_of(t: ContentType) -> u32 {
    match t {
        ContentType::InstalledGame => 0x4000,
        ContentType::XboxOriginal => 0x5000,
        ContentType::GamesOnDemand => 0x7000,
        ContentType::AvatarItem => 0x9000,
        ContentType::Video => 0x9_0000,
    }
}

/// A package is refused for want of an executable only where one is needed, and there always: if
/// neither a title id was asked for nor an executable was found, and its content type is known.
pub proof fn missing_executable_is_refused<F: FileSource>(
    files: F,
    content_type: Option<ContentType>,
    name: Option<String>,
    title_id: Option<u32>,
    identity: IdentityOverrides,
    signed: bool,
    original: SourceHeader,
    probe: Option<TitleInfo>,
    needs_executable: bool,
    listed_name: Option<String>,
    made: u32,
    r: Result<StfsWriteSession<F>, StfsWriteError>,
)
    requires
        is_opened(
            files,
            content_type,
            name,
            title_id,
            identity,
            signed,
            original,
            probe,
            needs_executable,
            listed_name,
            made,
            r,
        ),
    ensures
        r == Err::<StfsWriteSession<F>, StfsWriteError>(StfsWriteError::NoLaunchExecutable) <==> {
            &&& needs_executable
            &&& title_id is None
            &&& probe is None
            &&& content_type is Some || original.content_type is Some
        },
{
}

/// What can be planned: at least one file, no path without a component, at most 0xFFFE files and
/// directories, and at most 170 times 170 times 170 blocks, those of the listing among them.
pub proof fn planned_files_fit(files: Seq<(Seq<char>, int)>, i: int)
    requires
        plan_error(files) is None,
        0 <= i < files.len(),
    ensures
        components(files[i].0).len() > 0,
        tree_of(files) is Ok,
        1 <= tree_of(files)->Ok_0.len() < 0xFFFF,
        planned_blocks(tree_of(files)->Ok_0) <= 170 * 170 * 170,
{
    lemma_no_empty_path(Seq::empty(), files, 0, i);
}

proof fn lemma_no_empty_path(
    nodes: Seq<NodeModel>,
    files: Seq<(Seq<char>, int)>,
    k: int,
    i: int,
)
    requires
        0 <= k <= i < files.len(),
        add_files(nodes, files, k) is Ok,
    ensures
        components(files[i].0).len() > 0,
    decreases files.len() - k,
{
    if k < i {
        let n = add_path(nodes, components(files[k].0), 0, None, k, files[k].1);
        lemma_no_empty_path(n->Some_0, files, k + 1, i);
    }
}

/// Why nothing can be planned: a path without a component, a file of more than four bytes' worth
/// of size, no file, too many entries or too many blocks.
pub proof fn refused_plans_have_a_cause(files: Seq<(Seq<char>, int)>, e: PlanError)
    requires
        plan_error(files) == Some(e),
    ensures
        e == PlanError::EmptyPath ==> exists|i: int|
            0 <= i < files.len() && components((#[trigger] files[i]).0).len() == 0,
        e == PlanError::FileTooLarge ==> exists|i: int|
            0 <= i < files.len() && (#[trigger] files[i]).1 > 0xFFFF_FFFF,
        e == PlanError::TooManyBlocks ==> planned_blocks(tree_of(files)->Ok_0) > 170 * 170 * 170,
        files.len() == 0 ==> e == PlanError::NoFiles,
{
    lemma_cause(Seq::empty(), files, 0);
}

proof fn lemma_cause(nodes: Seq<NodeModel>, files: Seq<(Seq<char>, int)>, k: int)
    requires
        0 <= k <= files.len(),
    ensures
        add_files(nodes, files, k) matches Err(e) ==> {
            ||| e == PlanError::EmptyPath && exists|i: int|
                0 <= i < files.len() && components((#[trigger] files[i]).0).len() == 0
            ||| e == PlanError::FileTooLarge && exists|i: int|
                0 <= i < files.len() && (#[trigger] files[i]).1 > 0xFFFF_FFFF
        },
    decreases files.len() - k,
{
    if k < files.len() {
        let parts = components(files[k].0);
        if parts.len() == 0 {
            assert(components(files[k].0).len() == 0);
        } else {
            match add_path(nodes, parts, 0, None, k, files[k].1) {
                Some(n) => lemma_cause(n, files, k + 1),
                None => {
                    lemma_too_large(nodes, parts, 0, None, k, files[k].1);
                    assert(files[k].1 > 0xFFFF_FFFF);
                },
            }
        }
    }
}

proof fn lemma_too_large(
    nodes: Seq<NodeModel>,
    parts: Seq<Seq<char>>,
    depth: int,
    parent: Option<int>,
    file: int,
    size: int,
)
    requires
        0 <= depth,
        add_path(nodes, parts, depth, parent, file, size) is None,
    ensures
        size > 0xFFFF_FFFF,
    decreases parts.len() - depth,
{
    if depth < parts.len() {
        let is_last = depth == parts.len() - 1;
        match crate::stfs::layout::find_node(nodes, parent, parts[depth], 0) {
            Some(i) => lemma_too_large(nodes, parts, depth + 1, Some(i), file, size),
            None => if !(is_last && size > u32::MAX) {
                let node = NodeModel {
                    name: parts[depth],
                    is_directory: !is_last,
                    parent,
                    source: if is_last {
                        Some(file)
                    } else {
                        None
                    },
                    file_size: if is_last {
                        size
                    } else {
                        0
                    },
                };
                lemma_too_large(
                    nodes.push(node),
                    parts,
                    depth + 1,
                    Some(nodes.len() as int),
                    file,
                    size,
                );
            },
        }
    }
}

} // verus!
