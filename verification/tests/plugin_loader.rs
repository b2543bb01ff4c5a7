use image_processor::error::AppError;
use image_processor::plugin_loader::{
    advance_load, check_api_version, check_frame_buffer, check_params, check_return_code, lib_filename, LoadEvent, LoadOutcome,
    LoadStep, EXPECTED_API_VERSION,
};

#[test]
fn lib_filename_per_platform() {
    assert_eq!(lib_filename("mirror_plugin", false, "so"), "libmirror_plugin.so");
    assert_eq!(lib_filename("blur_plugin", false, "dylib"), "libblur_plugin.dylib");
    assert_eq!(lib_filename("mirror_plugin", true, "dll"), "mirror_plugin.dll");
}

#[test]
fn api_version_check() {
    assert_eq!(EXPECTED_API_VERSION, 1);
    assert!(check_api_version(1).is_ok());
    match check_api_version(2) {
        Err(AppError::PluginLoad(message)) => {
            assert_eq!(message, "Unsupported plugin API version: 2. Expected 1")
        }
        other => panic!("unexpected {:?}", other),
    }
    match check_api_version(4294967295) {
        Err(AppError::PluginLoad(message)) => {
            assert_eq!(message, "Unsupported plugin API version: 4294967295. Expected 1")
        }
        other => panic!("unexpected {:?}", other),
    }
}

#[test]
fn return_code_check() {
    assert!(check_return_code(0).is_ok());
    match check_return_code(3) {
        Err(AppError::PluginLoad(message)) => assert_eq!(message, "Plugin returned error code 3"),
        other => panic!("unexpected {:?}", other),
    }
    match check_return_code(-17) {
        Err(AppError::PluginLoad(message)) => {
            assert_eq!(message, "Plugin returned error code -17")
        }
        other => panic!("unexpected {:?}", other),
    }
    match check_return_code(i32::MIN) {
        Err(AppError::PluginLoad(message)) => {
            assert_eq!(message, "Plugin returned error code -2147483648")
        }
        other => panic!("unexpected {:?}", other),
    }
}

#[test]
fn load_steps_in_order() {
    let path = "/plugins/libmirror_plugin.so";
    assert!(matches!(
        advance_load(LoadStep::CheckFile, LoadEvent::FileExists(true), path),
        LoadOutcome::Continue(LoadStep::OpenLibrary)
    ));
    assert!(matches!(
        advance_load(LoadStep::OpenLibrary, LoadEvent::LibraryOpened(Ok(())), path),
        LoadOutcome::Continue(LoadStep::FindVersion)
    ));
    assert!(matches!(
        advance_load(LoadStep::FindVersion, LoadEvent::VersionFound(true), path),
        LoadOutcome::Continue(LoadStep::CheckVersion)
    ));
    assert!(matches!(
        advance_load(LoadStep::CheckVersion, LoadEvent::VersionReported(1), path),
        LoadOutcome::Continue(LoadStep::FindProcess)
    ));
    assert!(matches!(
        advance_load(LoadStep::FindProcess, LoadEvent::ProcessFound(Ok(())), path),
        LoadOutcome::Loaded
    ));
}

#[test]
fn load_failures() {
    let path = "/plugins/libmirror_plugin.so";
    match advance_load(LoadStep::CheckFile, LoadEvent::FileExists(false), path) {
        LoadOutcome::Failed(AppError::PluginLoad(message)) => {
            assert_eq!(message, "Library not found: /plugins/libmirror_plugin.so")
        }
        _ => panic!("missing file accepted"),
    }
    match advance_load(
        LoadStep::OpenLibrary,
        LoadEvent::LibraryOpened(Err(libloading::Error::DlOpenUnknown)),
        path,
    ) {
        LoadOutcome::Failed(AppError::PluginSymbol(libloading::Error::DlOpenUnknown)) => {}
        _ => panic!("open failure not reported"),
    }
    match advance_load(LoadStep::FindVersion, LoadEvent::VersionFound(false), path) {
        LoadOutcome::Failed(AppError::PluginLoad(message)) => {
            assert_eq!(message, "Plugin does not export plugin_api_version")
        }
        _ => panic!("missing version function accepted"),
    }
    match advance_load(LoadStep::CheckVersion, LoadEvent::VersionReported(7), path) {
        LoadOutcome::Failed(AppError::PluginLoad(message)) => {
            assert_eq!(message, "Unsupported plugin API version: 7. Expected 1")
        }
        _ => panic!("wrong version accepted"),
    }
    match advance_load(
        LoadStep::FindProcess,
        LoadEvent::ProcessFound(Err(libloading::Error::DlSymUnknown)),
        path,
    ) {
        LoadOutcome::Failed(AppError::PluginSymbol(libloading::Error::DlSymUnknown)) => {}
        _ => panic!("missing process_image accepted"),
    }
}

#[test]
fn params_with_zero_byte_are_refused() {
    assert!(check_params(r#"{"horizontal": true, "vertical": false}"#).is_ok());
    assert!(check_params("").is_ok());
    match check_params("{\"a\0b\0") {
        Err(AppError::ParamParse(message)) => assert_eq!(
            message,
            "params contain null byte: nul byte found in provided data at position: 3"
        ),
        other => panic!("unexpected {:?}", other),
    }
    let text = "é\0";
    match check_params(text) {
        Err(AppError::ParamParse(message)) => assert_eq!(
            message,
            "params contain null byte: nul byte found in provided data at position: 2"
        ),
        other => panic!("unexpected {:?}", other),
    }
}

#[test]
fn frame_buffer_must_hold_the_frame() {
    assert!(check_frame_buffer(16, 2, 2).is_ok());
    assert!(check_frame_buffer(20, 2, 2).is_ok());
    assert!(check_frame_buffer(0, 0, 9).is_ok());
    match check_frame_buffer(15, 2, 2) {
        Err(AppError::InvalidArgument(message)) => {
            assert_eq!(message, "Buffer of 15 bytes is too small for a 2x2 RGBA frame")
        }
        other => panic!("unexpected {:?}", other),
    }
    match check_frame_buffer(usize::MAX, u32::MAX, u32::MAX) {
        Err(AppError::InvalidArgument(_)) => {}
        other => panic!("unexpected {:?}", other),
    }
}
