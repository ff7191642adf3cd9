use xberg::error::{map_xberg_error_to_mcp, mcp_error_message, McpErrorCategory, XbergError};

#[test]
fn test_map_validation_error_to_invalid_params() {
    let error = XbergError::validation("invalid file path");
    let mcp_error = map_xberg_error_to_mcp(error);

    assert_eq!(mcp_error.code, -32602);
    assert!(mcp_error.message.contains("Validation error"));
    assert!(mcp_error.message.contains("invalid file path"));
}

#[test]
fn test_map_validation_error_with_source_preserves_chain() {
    let source = std::io::Error::new(std::io::ErrorKind::InvalidInput, "bad param");
    let error = XbergError::validation_with_source("invalid configuration", &source.to_string());
    let mcp_error = map_xberg_error_to_mcp(error);

    assert_eq!(mcp_error.code, -32602);
    assert!(mcp_error.message.contains("Validation error"));
    assert!(mcp_error.message.contains("invalid configuration"));
    assert!(mcp_error.message.contains("caused by"));
}

#[test]
fn test_map_unsupported_format_to_invalid_params() {
    let error = XbergError::UnsupportedFormat("application/unknown".to_string());
    let mcp_error = map_xberg_error_to_mcp(error);

    assert_eq!(mcp_error.code, -32602);
    assert!(mcp_error.message.contains("Unsupported format"));
    assert!(mcp_error.message.contains("application/unknown"));
}

#[test]
fn test_map_missing_dependency_to_invalid_params() {
    let error = XbergError::MissingDependency("tesseract".to_string());
    let mcp_error = map_xberg_error_to_mcp(error);

    assert_eq!(mcp_error.code, -32602);
    assert!(mcp_error.message.contains("Missing required dependency"));
    assert!(mcp_error.message.contains("tesseract"));
    assert!(mcp_error.message.contains("Please install"));
}

#[test]
fn test_map_parsing_error_to_parse_error() {
    let error = XbergError::parsing("corrupt PDF file");
    let mcp_error = map_xberg_error_to_mcp(error);

    assert_eq!(mcp_error.code, -32700);
    assert!(mcp_error.message.contains("Parsing error"));
    assert!(mcp_error.message.contains("corrupt PDF file"));
}

#[test]
fn test_map_parsing_error_with_source_preserves_chain() {
    let source = std::io::Error::new(std::io::ErrorKind::InvalidData, "malformed data");
    let error = XbergError::parsing_with_source("failed to parse document", &source.to_string());
    let mcp_error = map_xberg_error_to_mcp(error);

    assert_eq!(mcp_error.code, -32700);
    assert!(mcp_error.message.contains("Parsing error"));
    assert!(mcp_error.message.contains("failed to parse document"));
    assert!(mcp_error.message.contains("caused by"));
}

#[test]
fn test_map_io_error_to_internal_error() {
    let io_error = std::io::Error::new(std::io::ErrorKind::NotFound, "file not found");
    let error = XbergError::Io(io_error.to_string());
    let mcp_error = map_xberg_error_to_mcp(error);

    assert_eq!(mcp_error.code, -32603);
    assert!(mcp_error.message.contains("System I/O error"));
    assert!(mcp_error.message.contains("file not found"));
}

#[test]
fn test_map_ocr_error_to_internal_error() {
    let error = XbergError::ocr("tesseract failed");
    let mcp_error = map_xberg_error_to_mcp(error);

    assert_eq!(mcp_error.code, -32603);
    assert!(mcp_error.message.contains("OCR processing error"));
    assert!(mcp_error.message.contains("tesseract failed"));
}

#[test]
fn test_map_cache_error_to_internal_error() {
    let error = XbergError::cache("cache write failed");
    let mcp_error = map_xberg_error_to_mcp(error);

    assert_eq!(mcp_error.code, -32603);
    assert!(mcp_error.message.contains("Cache error"));
    assert!(mcp_error.message.contains("cache write failed"));
}

#[test]
fn test_map_image_processing_error_to_internal_error() {
    let error = XbergError::image_processing("resize failed");
    let mcp_error = map_xberg_error_to_mcp(error);

    assert_eq!(mcp_error.code, -32603);
    assert!(mcp_error.message.contains("Image processing error"));
    assert!(mcp_error.message.contains("resize failed"));
}

#[test]
fn test_map_serialization_error_to_internal_error() {
    let error = XbergError::serialization("JSON encode failed");
    let mcp_error = map_xberg_error_to_mcp(error);

    assert_eq!(mcp_error.code, -32603);
    assert!(mcp_error.message.contains("Serialization error"));
    assert!(mcp_error.message.contains("JSON encode failed"));
}

#[test]
fn test_map_embedding_error_to_internal_error() {
    let error = XbergError::embedding("Model failed to load");
    let mcp_error = map_xberg_error_to_mcp(error);

    assert_eq!(mcp_error.code, -32603);
    assert!(mcp_error.message.contains("Embedding error"));
    assert!(mcp_error.message.contains("Model failed to load"));
}

#[test]
fn test_map_plugin_error_to_internal_error() {
    let error = XbergError::Plugin {
        message: "extraction failed".to_string(),
        plugin_name: "pdf-extractor".to_string(),
    };
    let mcp_error = map_xberg_error_to_mcp(error);

    assert_eq!(mcp_error.code, -32603);
    assert!(mcp_error.message.contains("Plugin 'pdf-extractor' error"));
    assert!(mcp_error.message.contains("extraction failed"));
}

#[test]
fn test_map_lock_poisoned_error_to_internal_error() {
    let error = XbergError::LockPoisoned("registry lock poisoned".to_string());
    let mcp_error = map_xberg_error_to_mcp(error);

    assert_eq!(mcp_error.code, -32603);
    assert!(mcp_error.message.contains("Internal lock poisoned"));
    assert!(mcp_error.message.contains("registry lock poisoned"));
}

#[test]
fn test_map_other_error_to_internal_error() {
    let error = XbergError::Other("unexpected error".to_string());
    let mcp_error = map_xberg_error_to_mcp(error);

    assert_eq!(mcp_error.code, -32603);
    assert!(mcp_error.message.contains("unexpected error"));
}

#[test]
fn test_map_cancelled_to_request_cancelled() {
    let error = XbergError::Cancelled;
    let mcp_error = map_xberg_error_to_mcp(error);

    assert_eq!(mcp_error.code, -32800);
    assert!(mcp_error.message.contains("cancelled"));
}

#[test]
fn should_map_security_error_to_invalid_params() {
    let error = XbergError::security("zip bomb detected");
    let mcp_error = map_xberg_error_to_mcp(error);

    assert_eq!(mcp_error.code, -32602);
    assert!(mcp_error.message.contains("Security violation"));
    assert!(mcp_error.message.contains("zip bomb detected"));
}

#[test]
fn should_map_timeout_error_to_internal_error_with_exact_message() {
    let error = XbergError::Timeout {
        elapsed_ms: 5000,
        limit_ms: 3000,
    };
    let mcp_error = map_xberg_error_to_mcp(error);

    assert_eq!(mcp_error.code, -32603);
    assert_eq!(mcp_error.message, "Extraction timed out after 5000ms (limit: 3000ms)");
}

#[test]
fn should_map_transcription_error_to_internal_error() {
    let error = XbergError::transcription("whisper backend failed");
    let mcp_error = map_xberg_error_to_mcp(error);

    assert_eq!(mcp_error.code, -32603);
    assert!(mcp_error.message.contains("Transcription error"));
    assert!(mcp_error.message.contains("whisper backend failed"));
}

#[test]
fn should_map_reranking_error_to_internal_error() {
    let error = XbergError::reranking("cross-encoder failed");
    let mcp_error = map_xberg_error_to_mcp(error);

    assert_eq!(mcp_error.code, -32603);
    assert!(mcp_error.message.contains("Reranking error"));
    assert!(mcp_error.message.contains("cross-encoder failed"));
}

#[test]
fn test_error_type_differentiation() {
    let validation = XbergError::validation("test");
    let parsing = XbergError::parsing("test");
    let io = XbergError::Io(std::io::Error::other("test").to_string());

    let val_mcp = map_xberg_error_to_mcp(validation);
    let parse_mcp = map_xberg_error_to_mcp(parsing);
    let io_mcp = map_xberg_error_to_mcp(io);

    assert_eq!(val_mcp.code, -32602);
    assert_eq!(parse_mcp.code, -32700);
    assert_eq!(io_mcp.code, -32603);

    assert_ne!(val_mcp.code, parse_mcp.code);
    assert_ne!(val_mcp.code, io_mcp.code);
    assert_ne!(parse_mcp.code, io_mcp.code);
}

#[test]
fn test_error_mapping_preserves_error_context() {
    let validation_error = XbergError::validation("invalid file path");
    let mcp_error = map_xberg_error_to_mcp(validation_error);

    assert!(mcp_error.message.contains("invalid file path"));
}

#[test]
fn test_io_errors_bubble_up_as_internal() {
    let io_error = std::io::Error::new(std::io::ErrorKind::PermissionDenied, "access denied");
    let xberg_error = XbergError::Io(io_error.to_string());
    let mcp_error = map_xberg_error_to_mcp(xberg_error);

    assert_eq!(mcp_error.code, -32603);
    assert!(mcp_error.message.contains("System I/O error"));
}

#[test]
fn test_all_error_variants_have_mappings() {
    let errors = vec![
        XbergError::validation("test"),
        XbergError::UnsupportedFormat("test/unknown".to_string()),
        XbergError::MissingDependency("test-dep".to_string()),
        XbergError::parsing("test"),
        XbergError::Io(std::io::Error::other("test").to_string()),
        XbergError::ocr("test"),
        XbergError::cache("test"),
        XbergError::image_processing("test"),
        XbergError::serialization("test"),
        XbergError::Plugin {
            message: "test".to_string(),
            plugin_name: "test-plugin".to_string(),
        },
        XbergError::LockPoisoned("test".to_string()),
        XbergError::Other("test".to_string()),
        XbergError::Cancelled,
        XbergError::reranking("test rerank error"),
    ];

    for error in errors {
        let mcp_error = map_xberg_error_to_mcp(error);

        assert!(mcp_error.code < 0, "Error code should be negative");

        assert!(!mcp_error.message.is_empty());
    }
}

#[test]
fn causes_are_named_after_the_message() {
    let error = XbergError::validation_with_source("bad", "worse");
    assert_eq!(error.mcp_error_category(), McpErrorCategory::InvalidParams);
    assert_eq!(mcp_error_message(error), "Validation error: bad (caused by: worse)");
}
