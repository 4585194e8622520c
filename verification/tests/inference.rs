use segment::inference::{
    body_kind, handle_inference_response, pair_embeddings, plan_inference, select_token, BodyKind,
    Exchange, InferenceConfig, InferenceDataKind, InferencePlan, InferenceType, StorageError,
};

fn failure(status: u16, status_text: &str, body: &str, validation: Option<&str>) -> StorageError {
    handle_inference_response::<Vec<u8>>(
        status,
        status_text,
        body,
        Err(String::new()),
        validation.map(|text| text.to_string()),
    )
    .unwrap_err()
}

#[test]
fn inference_type_is_sent_in_lower_case() {
    assert_eq!(InferenceType::Update.to_string(), "update");
    assert_eq!(InferenceType::Search.to_string(), "search");
    assert_eq!(InferenceType::Search.as_str(), "search");
    assert_eq!(InferenceType::default(), InferenceType::Update);
}

#[test]
fn kinds_of_inference_data() {
    assert_eq!(InferenceDataKind::Document.kind_name(), "document");
    assert_eq!(InferenceDataKind::Image.kind_name(), "image");
    assert_eq!(InferenceDataKind::Object.kind_name(), "object");
    assert_eq!(InferenceDataKind::Document.data_type(), "text");
    assert_eq!(InferenceDataKind::Image.data_type(), "image");
    assert_eq!(InferenceDataKind::Object.data_type(), "object");
}

#[test]
fn address_must_be_given_and_not_empty() {
    let mut config = InferenceConfig { address: None, timeout: 10, token: None };
    assert!(!config.is_address_valid());
    assert_eq!(
        config.validate(),
        Err(StorageError::ServiceError {
            description: "InferenceService configuration error: address is missing or empty"
                .to_string()
        })
    );
    config.address = Some(String::new());
    assert!(!config.is_address_valid());
    config.address = Some("http://localhost:2114/api/v1/infer".to_string());
    assert!(config.is_address_valid());
    assert_eq!(config.validate(), Ok(()));
}

#[test]
fn the_token_of_the_request_wins() {
    let configured = Some("configured".to_string());
    assert_eq!(select_token(Some("own".to_string()), &configured), Some("own".to_string()));
    assert_eq!(select_token(None, &configured), configured);
    assert_eq!(select_token(None, &None), None);
}

#[test]
fn planning_a_batch() {
    let valid = InferenceConfig { address: Some("http://infer".to_string()), timeout: 1, token: None };
    let invalid = InferenceConfig { address: None, timeout: 1, token: None };
    assert_eq!(plan_inference(0, None), InferencePlan::Nothing);
    assert_eq!(plan_inference(0, Some(&invalid)), InferencePlan::Nothing);
    assert_eq!(plan_inference(3, Some(&valid)), InferencePlan::Infer);
    assert_eq!(
        plan_inference(3, None),
        InferencePlan::Fail(StorageError::ServiceError {
            description: "InferenceService is not initialized. Please check if it was properly configured and initialized during startup.".to_string()
        })
    );
    assert_eq!(
        plan_inference(1, Some(&invalid)),
        InferencePlan::Fail(StorageError::ServiceError {
            description: "InferenceService configuration error: address is missing or empty"
                .to_string()
        })
    );
}

#[test]
fn what_an_exchange_leaves_to_handle() {
    let answer = Exchange::Answered {
        status: 200,
        status_text: "200 OK".to_string(),
        body: Ok("{}".to_string()),
    }
    .answer()
    .unwrap();
    assert_eq!((answer.status, answer.status_text.as_str(), answer.body.as_str()), (200, "200 OK", "{}"));

    let error = Exchange::Answered {
        status: 200,
        status_text: "200 OK".to_string(),
        body: Err("broken pipe".to_string()),
    }
    .answer()
    .err()
    .unwrap();
    assert_eq!(
        error,
        StorageError::ServiceError {
            description: "Failed to read inference response body: broken pipe".to_string()
        }
    );

    let answer = Exchange::Failed {
        carried: Some((502, "502 Bad Gateway".to_string())),
        error: "upstream gone".to_string(),
    }
    .answer()
    .unwrap();
    assert_eq!((answer.status, answer.body.as_str()), (502, "upstream gone"));

    let error = Exchange::Failed { carried: None, error: "connection refused".to_string() }
        .answer()
        .err()
        .unwrap();
    assert_eq!(
        error,
        StorageError::ServiceError {
            description: "Failed to send inference request: connection refused".to_string()
        }
    );
}

#[test]
fn the_body_is_read_by_status() {
    assert_eq!(body_kind(200), BodyKind::Embeddings);
    assert_eq!(body_kind(400), BodyKind::ValidationError);
    assert_eq!(body_kind(401), BodyKind::Text);
    assert_eq!(body_kind(500), BodyKind::Text);
    assert_eq!(body_kind(204), BodyKind::Text);
}

#[test]
fn a_successful_answer_carries_what_was_parsed() {
    let parsed: Result<Vec<u8>, String> = Ok(vec![1, 2, 3]);
    assert_eq!(
        handle_inference_response(200, "200 OK", "[1,2,3]", parsed, None),
        Ok(vec![1, 2, 3])
    );
    let parsed: Result<Vec<u8>, String> = Err("expected value at line 1 column 1".to_string());
    assert_eq!(
        handle_inference_response(200, "200 OK", "oops", parsed, None),
        Err(StorageError::ServiceError {
            description: "Failed to parse successful inference response: expected value at line 1 column 1. Response body: oops".to_string()
        })
    );
    // for any other status what was parsed is not looked at
    let parsed: Result<Vec<u8>, String> = Ok(vec![1]);
    assert!(handle_inference_response(201, "201 Created", "", parsed, None).is_err());
}

#[test]
fn a_bad_request_says_what_was_wrong() {
    assert_eq!(
        failure(400, "400 Bad Request", "{\"error\":\"unknown model\"}", Some("unknown model")),
        StorageError::BadRequest {
            description: "Inference request validation failed: unknown model".to_string()
        }
    );
    assert_eq!(
        failure(400, "400 Bad Request", "not json", None),
        StorageError::BadRequest { description: "Invalid inference request: not json".to_string() }
    );
}

#[test]
fn failed_authentication_is_a_service_error() {
    for (status, text) in [(401u16, "401 Unauthorized"), (403, "403 Forbidden")] {
        assert_eq!(
            failure(status, text, "denied", Some("ignored")),
            StorageError::ServiceError {
                description: format!("Authentication failed for inference service ({text}): denied")
            }
        );
    }
}

#[test]
fn server_errors_are_service_errors() {
    for (status, text) in [
        (500u16, "500 Internal Server Error"),
        (503, "503 Service Unavailable"),
        (504, "504 Gateway Timeout"),
        (502, "502 Bad Gateway"),
        (599, "599 <unknown status code>"),
    ] {
        assert_eq!(
            failure(status, text, "down", None),
            StorageError::ServiceError {
                description: format!("Inference service error ({text}): down")
            }
        );
    }
}

#[test]
fn other_client_errors_are_bad_requests() {
    for (status, text) in [(404u16, "404 Not Found"), (422, "422 Unprocessable Entity"), (499, "499")] {
        assert_eq!(
            failure(status, text, "no", None),
            StorageError::BadRequest {
                description: format!("Inference can't process request ({text}): no")
            }
        );
    }
}

#[test]
fn anything_else_is_unexpected() {
    for (status, text) in [(204u16, "204 No Content"), (302, "302 Found"), (600, "600"), (100, "100 Continue")] {
        assert_eq!(
            failure(status, text, "", None),
            StorageError::ServiceError {
                description: format!("Unexpected inference error ({text}): ")
            }
        );
    }
}

#[test]
fn objects_are_paired_with_their_embeddings() {
    assert_eq!(
        pair_embeddings(vec!["a", "b", "c"], vec![1, 2, 3]),
        Ok(vec![("a", 1), ("b", 2), ("c", 3)])
    );
    // what has no partner is left out
    assert_eq!(pair_embeddings(vec!["a", "b", "c"], vec![1]), Ok(vec![("a", 1)]));
    assert_eq!(pair_embeddings(vec!["a"], vec![1, 2]), Ok(vec![("a", 1)]));
    assert_eq!(
        pair_embeddings(vec!["a"], Vec::<i32>::new()),
        Err(StorageError::ServiceError {
            description: "Inference service returned no vectors. Check if models are properly loaded."
                .to_string()
        })
    );
}
