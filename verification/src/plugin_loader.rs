//! Decisions of the plugin loader: the library's file name, the checks made
//! while loading it, and the reading of the status a plugin reports.
//!
//! Loading runs as a sequence of steps. The caller performs the outside work
//! of each step (a file lookup, opening the library, looking up a symbol,
//! calling the version function) and hands its outcome to `advance_load`,
//! which says what to do next.

use crate::blur;
use crate::error::AppError;
use crate::frame;
use crate::mirror;
use crate::text;
use vstd::prelude::*;
use vstd::string::StringSliceAdditionalSpecFns;

verus! {

/// Plugin interface version that the loader accepts.
pub const EXPECTED_API_VERSION: u32 = 1;

/// File name of the library of plugin `name`: `name.ext` on Windows,
/// `libname.ext` elsewhere.
pub open spec fn lib_file_name(name: Seq<char>, windows: bool, extension: Seq<char>) -> Seq<char> {
    if windows {
        name + seq!['.'] + extension
    } else {
        seq!['l', 'i', 'b'] + name + seq!['.'] + extension
    }
}

/// Message of the error for a plugin that reports interface `version`.
pub open spec fn unsupported_version_message(version: u32) -> Seq<char> {
    "Unsupported plugin API version: "@ + text::decimal(version as nat) + ". Expected "@
        + text::decimal(EXPECTED_API_VERSION as nat)
}

/// Message of the error for a plugin that returned status `code`.
pub open spec fn error_code_message(code: i32) -> Seq<char> {
    "Plugin returned error code "@ + text::signed_decimal(code as int)
}

/// Message of the error for a library file that is not there.
pub open spec fn missing_library_message(path: Seq<char>) -> Seq<char> {
    "Library not found: "@ + path
}

/// Message of the error for a library without a version function.
pub open spec fn missing_version_message() -> Seq<char> {
    "Plugin does not export plugin_api_version"@
}

/// `position` is where the first zero byte of `bytes` stands.
pub open spec fn first_zero_at(bytes: Seq<u8>, position: int) -> bool {
    &&& 0 <= position < bytes.len()
    &&& bytes[position] == 0
    &&& forall|j: int| 0 <= j < position ==> bytes[j] != 0
}

/// Message of the error for parameters whose first zero byte stands at
/// `position`: such text cannot be handed over as a C string.
pub open spec fn zero_byte_message(position: nat) -> Seq<char> {
    "params contain null byte: nul byte found in provided data at position: "@
        + text::decimal(position)
}

/// Checks that the parameters text can be handed to a plugin as a C string:
/// it must hold no zero byte.
pub fn check_params(params: &str) -> (checked: Result<(), AppError>)
    ensures
        (forall|j: int| 0 <= j < params.spec_bytes().len() ==> params.spec_bytes()[j] != 0)
            ==> checked is Ok,
        forall|position: int|
            #[trigger] first_zero_at(params.spec_bytes(), position) ==> (checked matches Err(
                AppError::ParamParse(message),
            ) && message@ == zero_byte_message(position as nat)),
{
    let bytes = params.as_bytes();
    let len = bytes.len();
    let mut i: usize = 0;
    while i < len
        invariant
            i <= len,
            len == bytes@.len(),
            bytes@ == params.spec_bytes(),
            forall|j: int| 0 <= j < i ==> bytes@[j] != 0,
        decreases len - i,
    {
        if bytes[i] == 0 {
            let mut message = String::from_str(
                "params contain null byte: nul byte found in provided data at position: ",
            );
            text::push_decimal(&mut message, i as u64);
            proof {
                assert forall|position: int| #[trigger]
                    first_zero_at(params.spec_bytes(), position) implies position == i by {
                    if position < i {
                        assert(bytes@[position] != 0);
                    } else if position > i {
                        assert(bytes@[i as int] == 0);
                    }
                }
            }
            return Err(AppError::ParamParse(message));
        }
        i = i + 1;
    }
    Ok(())
}

/// Message of the error for a buffer of `len` bytes that cannot hold a
/// `width` x `height` frame.
pub open spec fn short_buffer_message(len: nat, width: u32, height: u32) -> Seq<char> {
    "Buffer of "@ + text::decimal(len) + " bytes is too small for a "@ + text::decimal(
        width as nat,
    ) + "x"@ + text::decimal(height as nat) + " RGBA frame"@
}

/// Checks that a buffer of `len` bytes holds a whole `width` x `height`
/// RGBA8 frame, so that a plugin handed the buffer works only inside it.
pub fn check_frame_buffer(len: usize, width: u32, height: u32) -> (checked: Result<(), AppError>)
    ensures
        frame::frame_size(width as int, height as int) <= len ==> checked is Ok,
        frame::frame_size(width as int, height as int) > len ==> (checked matches Err(
            AppError::InvalidArgument(message),
        ) && message@ == short_buffer_message(len as nat, width, height)),
{
    if let Some(needed) = frame::frame_len(width, height) {
        if needed <= len {
            return Ok(());
        }
    }
    let mut message = String::from_str("Buffer of ");
    text::push_decimal(&mut message, len as u64);
    message.append(" bytes is too small for a ");
    text::push_decimal(&mut message, width as u64);
    message.append("x");
    text::push_decimal(&mut message, height as u64);
    message.append(" RGBA frame");
    Err(AppError::InvalidArgument(message))
}

/// Builds the file name of the library of plugin `name`, for a platform that
/// names libraries `name.extension` (`windows`) or `libname.extension`.
pub fn lib_filename(name: &str, windows: bool, extension: &str) -> (file: String)
    ensures
        file@ == lib_file_name(name@, windows, extension@),
{
    proof {
        reveal_strlit("lib");
        reveal_strlit(".");
    }
    let mut file = if windows {
        String::new()
    } else {
        String::from_str("lib")
    };
    file.append(name);
    file.append(".");
    file.append(extension);
    file
}

/// Accepts a plugin that reports interface version `version` when it is the
/// one the loader expects.
pub fn check_api_version(version: u32) -> (checked: Result<(), AppError>)
    ensures
        version == EXPECTED_API_VERSION ==> checked is Ok,
        version != EXPECTED_API_VERSION ==> (checked matches Err(AppError::PluginLoad(message))
            && message@ == unsupported_version_message(version)),
{
    if version == EXPECTED_API_VERSION {
        return Ok(());
    }
    let mut message = String::from_str("Unsupported plugin API version: ");
    text::push_decimal(&mut message, version as u64);
    message.append(". Expected ");
    text::push_decimal(&mut message, EXPECTED_API_VERSION as u64);
    Err(AppError::PluginLoad(message))
}

/// Reads the status a plugin returned: 0 is success, anything else a failure.
pub fn check_return_code(code: i32) -> (checked: Result<(), AppError>)
    ensures
        code == 0 ==> checked is Ok,
        code != 0 ==> (checked matches Err(AppError::PluginLoad(message)) && message@
            == error_code_message(code)),
{
    if code == 0 {
        return Ok(());
    }
    let mut message = String::from_str("Plugin returned error code ");
    text::push_signed_decimal(&mut message, code as i64);
    Err(AppError::PluginLoad(message))
}

/// Both plugins report the interface version that the loader accepts, so
/// their version check passes.
pub proof fn lemma_plugins_speak_loader_version()
    ensures
        blur::API_VERSION == EXPECTED_API_VERSION,
        mirror::API_VERSION == EXPECTED_API_VERSION,
{
}

/// A step of loading a plugin library.
pub enum LoadStep {
    /// Check that the library file exists.
    CheckFile,
    /// Open the library.
    OpenLibrary,
    /// Look up the `plugin_api_version` function.
    FindVersion,
    /// Call it and check the version it reports.
    CheckVersion,
    /// Look up the `process_image` function.
    FindProcess,
}

/// The outcome of the outside work of a step.
pub enum LoadEvent {
    /// Whether the library file exists.
    FileExists(bool),
    /// Whether the library could be opened.
    LibraryOpened(core::result::Result<(), libloading::Error>),
    /// Whether the library exports `plugin_api_version`.
    VersionFound(bool),
    /// The version that `plugin_api_version` reported.
    VersionReported(u32),
    /// Whether the library exports `process_image`.
    ProcessFound(core::result::Result<(), libloading::Error>),
}

/// What to do after a step.
pub enum LoadOutcome {
    /// Go on with this step.
    Continue(LoadStep),
    /// The plugin is loaded.
    Loaded,
    /// Loading failed with this error.
    Failed(AppError),
}

/// `event` is an outcome of the work of `step`.
pub open spec fn event_answers(step: LoadStep, event: LoadEvent) -> bool {
    match step {
        LoadStep::CheckFile => event is FileExists,
        LoadStep::OpenLibrary => event is LibraryOpened,
        LoadStep::FindVersion => event is VersionFound,
        LoadStep::CheckVersion => event is VersionReported,
        LoadStep::FindProcess => event is ProcessFound,
    }
}

/// Decides what follows `step` once its outside work ended with `event`;
/// `lib_path` is the library's path as shown in messages.
pub fn advance_load(step: LoadStep, event: LoadEvent, lib_path: &str) -> (outcome: LoadOutcome)
    requires
        event_answers(step, event),
    ensures
        match event {
            LoadEvent::FileExists(exists) => if exists {
                outcome == LoadOutcome::Continue(LoadStep::OpenLibrary)
            } else {
                outcome matches LoadOutcome::Failed(AppError::PluginLoad(message)) && message@
                    == missing_library_message(lib_path@)
            },
            LoadEvent::LibraryOpened(opened) => match opened {
                Ok(()) => outcome == LoadOutcome::Continue(LoadStep::FindVersion),
                Err(e) => outcome == LoadOutcome::Failed(AppError::PluginSymbol(e)),
            },
            LoadEvent::VersionFound(found) => if found {
                outcome == LoadOutcome::Continue(LoadStep::CheckVersion)
            } else {
                outcome matches LoadOutcome::Failed(AppError::PluginLoad(message)) && message@
                    == missing_version_message()
            },
            LoadEvent::VersionReported(version) => if version == EXPECTED_API_VERSION {
                outcome == LoadOutcome::Continue(LoadStep::FindProcess)
            } else {
                outcome matches LoadOutcome::Failed(AppError::PluginLoad(message)) && message@
                    == unsupported_version_message(version)
            },
            LoadEvent::ProcessFound(found) => match found {
                Ok(()) => outcome == LoadOutcome::Loaded,
                Err(e) => outcome == LoadOutcome::Failed(AppError::PluginSymbol(e)),
            },
        },
{
    match event {
        LoadEvent::FileExists(exists) => {
            if exists {
                LoadOutcome::Continue(LoadStep::OpenLibrary)
            } else {
                let mut message = String::from_str("Library not found: ");
                message.append(lib_path);
                LoadOutcome::Failed(AppError::PluginLoad(message))
            }
        },
        LoadEvent::LibraryOpened(opened) => match opened {
            Ok(()) => LoadOutcome::Continue(LoadStep::FindVersion),
            Err(e) => LoadOutcome::Failed(AppError::PluginSymbol(e)),
        },
        LoadEvent::VersionFound(found) => {
            if found {
                LoadOutcome::Continue(LoadStep::CheckVersion)
            } else {
                LoadOutcome::Failed(
                    AppError::PluginLoad(
                        String::from_str("Plugin does not export plugin_api_version"),
                    ),
                )
            }
        },
        LoadEvent::VersionReported(version) => match check_api_version(version) {
            Ok(()) => LoadOutcome::Continue(LoadStep::FindProcess),
            Err(e) => LoadOutcome::Failed(e),
        },
        LoadEvent::ProcessFound(found) => match found {
            Ok(()) => LoadOutcome::Loaded,
            Err(e) => LoadOutcome::Failed(AppError::PluginSymbol(e)),
        },
    }
}

} // verus!
