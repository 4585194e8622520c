//! What the inference client decides without touching the network: how an
//! object is labelled in a request, which token goes with it, and what an
//! answer of the inference service means.

use vstd::prelude::*;
use vstd::string::StringExecFns;

verus! {

/// What an inference request is for: writing points, or searching.
#[derive(Debug, Default, Clone, Copy, PartialEq, Eq, Structural)]
pub enum InferenceType {
    #[default]
    Update,
    Search,
}

impl InferenceType {
    /// The lower-case name, as it is sent to the inference service.
    pub open spec fn name(self) -> Seq<char> {
        match self {
            InferenceType::Update => "update"@,
            InferenceType::Search => "search"@,
        }
    }

    /// The lower-case name, as it is sent to the inference service.
    pub fn as_str(&self) -> (s: &'static str)
        ensures
            s@ == self.name(),
    {
        match self {
            InferenceType::Update => "update",
            InferenceType::Search => "search",
        }
    }

    /// The lower-case name as an owned string.
    pub fn to_string(&self) -> (s: String)
        ensures
            s@ == self.name(),
    {
        self.as_str().to_owned()
    }
}

/// The kinds of object that can be sent for inference.
#[derive(Debug, Clone, Copy, PartialEq, Eq, Structural)]
pub enum InferenceDataKind {
    Document,
    Image,
    Object,
}

impl InferenceDataKind {
    /// The name of the kind.
    pub open spec fn spec_kind_name(self) -> Seq<char> {
        match self {
            InferenceDataKind::Document => "document"@,
            InferenceDataKind::Image => "image"@,
            InferenceDataKind::Object => "object"@,
        }
    }

    /// The name of the kind.
    pub fn kind_name(&self) -> (name: &'static str)
        ensures
            name@ == self.spec_kind_name(),
    {
        match self {
            InferenceDataKind::Document => "document",
            InferenceDataKind::Image => "image",
            InferenceDataKind::Object => "object",
        }
    }

    /// The label under which the inference service expects data of this
    /// kind. A document is sent as text.
    pub open spec fn spec_data_type(self) -> Seq<char> {
        match self {
            InferenceDataKind::Document => "text"@,
            InferenceDataKind::Image => "image"@,
            InferenceDataKind::Object => "object"@,
        }
    }

    /// The label under which the inference service expects data of this
    /// kind.
    pub fn data_type(&self) -> (label: String)
        ensures
            label@ == self.spec_data_type(),
    {
        match self {
            InferenceDataKind::Document => "text".to_owned(),
            InferenceDataKind::Image => "image".to_owned(),
            InferenceDataKind::Object => "object".to_owned(),
        }
    }
}

/// Why a request to the storage service failed.
#[derive(Debug, Clone, PartialEq, Eq)]
pub enum StorageError {
    /// The request itself is at fault.
    BadRequest { description: String },
    /// The service, or a service behind it, is at fault.
    ServiceError { description: String },
}

impl StorageError {
    /// What the error says.
    pub open spec fn description(self) -> Seq<char> {
        match self {
            StorageError::BadRequest { description } => description@,
            StorageError::ServiceError { description } => description@,
        }
    }

    /// A service error with the given description.
    pub fn service_error(description: String) -> (error: StorageError)
        ensures
            error is ServiceError,
            error.description() == description@,
    {
        StorageError::ServiceError { description }
    }

    /// A bad request with the given description.
    pub fn bad_request(description: String) -> (error: StorageError)
        ensures
            error is BadRequest,
            error.description() == description@,
    {
        StorageError::BadRequest { description }
    }
}

/// How the inference service is reached.
#[derive(Debug, Clone)]
pub struct InferenceConfig {
    /// Where the inference service listens.
    pub address: Option<String>,
    /// How many seconds a request may take.
    pub timeout: u64,
    /// The token that goes with a request that brings none of its own.
    pub token: Option<String>,
}

impl InferenceConfig {
    /// Whether an address is given and not empty.
    pub open spec fn address_valid(&self) -> bool {
        match self.address {
            Some(address) => address@.len() > 0,
            None => false,
        }
    }

    /// Whether an address is given and not empty.
    pub fn is_address_valid(&self) -> (valid: bool)
        ensures
            valid == self.address_valid(),
    {
        match &self.address {
            Some(address) => {
                let text = address.as_str();
                !text.is_empty()
            },
            None => false,
        }
    }

    /// Refuses a configuration without a usable address.
    pub fn validate(&self) -> (checked: Result<(), StorageError>)
        ensures
            checked is Ok <==> self.address_valid(),
            checked matches Err(error) ==> error is ServiceError && error.description()
                == "InferenceService configuration error: address is missing or empty"@,
    {
        if !self.is_address_valid() {
            return Err(
                StorageError::service_error(
                    "InferenceService configuration error: address is missing or empty".to_owned(),
                ),
            );
        }
        Ok(())
    }
}

/// The token that goes with a request: its own, or else the configured one.
pub fn select_token(request_token: Option<String>, config_token: &Option<String>) -> (token: Option<
    String,
>)
    ensures
        token == match request_token {
            Some(own) => Some(own),
            None => *config_token,
        },
{
    match request_token {
        Some(own) => Some(own),
        None => match config_token {
            Some(configured) => Some(configured.clone()),
            None => None,
        },
    }
}

/// What has to be done before any object is sent for inference.
#[derive(Debug, Clone, PartialEq, Eq)]
pub enum InferencePlan {
    /// There are no objects: the result is empty, and no request is made.
    Nothing,
    /// The objects are to be sent.
    Infer,
    /// No request can be made.
    Fail(StorageError),
}

/// Decides whether a batch of objects is sent for inference. An empty batch
/// needs no service at all. Otherwise the service must have been set up, with
/// a usable address.
pub fn plan_inference(objects: usize, service: Option<&InferenceConfig>) -> (plan: InferencePlan)
    ensures
        objects == 0 ==> plan is Nothing,
        objects > 0 ==> match service {
            None => plan matches InferencePlan::Fail(error) && error is ServiceError
                && error.description()
                == "InferenceService is not initialized. Please check if it was properly configured and initialized during startup."@,
            Some(config) => if config.address_valid() {
                plan is Infer
            } else {
                plan matches InferencePlan::Fail(error) && error is ServiceError
                    && error.description()
                    == "InferenceService configuration error: address is missing or empty"@
            },
        },
{
    if objects == 0 {
        return InferencePlan::Nothing;
    }
    let config = match service {
        Some(config) => config,
        None => {
            return InferencePlan::Fail(
                StorageError::service_error(
                    "InferenceService is not initialized. Please check if it was properly configured and initialized during startup.".to_owned(),
                ),
            );
        },
    };
    match config.validate() {
        Ok(_) => InferencePlan::Infer,
        Err(error) => InferencePlan::Fail(error),
    }
}

/// What came back when a request was sent to the inference service.
#[derive(Debug)]
pub enum Exchange {
    /// The service answered. The body could be read, or could not, and then
    /// the reason is given.
    Answered { status: u16, status_text: String, body: Result<String, String> },
    /// The request failed. The failure may still carry a status.
    Failed { carried: Option<(u16, String)>, error: String },
}

/// The status of an answer, the status as text, and the body.
pub struct Answer {
    pub status: u16,
    pub status_text: String,
    pub body: String,
}

impl Exchange {
    /// What the exchange leaves to be handled as an answer: the status and the
    /// body of an answer that could be read, or the status and the text of a
    /// failure that carries a status. Anything else is a service error.
    pub fn answer(self) -> (result: Result<Answer, StorageError>)
        ensures
            match self {
                Exchange::Answered { status, status_text, body: Ok(body) } => result matches Ok(
                    answer,
                ) && answer.status == status && answer.status_text == status_text && answer.body
                    == body,
                Exchange::Answered { body: Err(reason), .. } => result matches Err(error) && error is ServiceError
                    && error.description() == "Failed to read inference response body: "@
                    + reason@,
                Exchange::Failed { carried: Some((status, status_text)), error } => result matches Ok(
                    answer,
                ) && answer.status == status && answer.status_text == status_text && answer.body
                    == error,
                Exchange::Failed { carried: None, error } => result matches Err(failure) && failure is ServiceError
                    && failure.description() == "Failed to send inference request: "@ + error@,
            },
    {
        match self {
            Exchange::Answered { status, status_text, body } => match body {
                Ok(body) => Ok(Answer { status, status_text, body }),
                Err(reason) => {
                    let description = "Failed to read inference response body: ".to_owned().concat(
                        reason.as_str(),
                    );
                    Err(StorageError::service_error(description))
                },
            },
            Exchange::Failed { carried, error } => match carried {
                Some((status, status_text)) => Ok(Answer { status, status_text, body: error }),
                None => {
                    let description = "Failed to send inference request: ".to_owned().concat(
                        error.as_str(),
                    );
                    Err(StorageError::service_error(description))
                },
            },
        }
    }
}

/// What the body of an answer has to be read as, by its status.
#[derive(Debug, Clone, Copy, PartialEq, Eq, Structural)]
pub enum BodyKind {
    /// The embeddings that were asked for.
    Embeddings,
    /// The description of what was wrong with the request, if the body has
    /// that form.
    ValidationError,
    /// Text, to be passed on as it is.
    Text,
}

/// What the body of an answer with the given status has to be read as.
pub open spec fn spec_body_kind(status: u16) -> BodyKind {
    if status == 200 {
        BodyKind::Embeddings
    } else if status == 400 {
        BodyKind::ValidationError
    } else {
        BodyKind::Text
    }
}

/// What the body of an answer with the given status has to be read as.
pub fn body_kind(status: u16) -> (kind: BodyKind)
    ensures
        kind == spec_body_kind(status),
{
    if status == 200 {
        BodyKind::Embeddings
    } else if status == 400 {
        BodyKind::ValidationError
    } else {
        BodyKind::Text
    }
}

/// A status from 500 to 599.
pub open spec fn is_server_error(status: u16) -> bool {
    500 <= status < 600
}

/// A status from 400 to 499.
pub open spec fn is_client_error(status: u16) -> bool {
    400 <= status < 500
}

/// The description of the error that an answer without embeddings stands
/// for. `validation` is what the body says was wrong with the request, where
/// it could be read as that.
pub open spec fn failure_description(
    status: u16,
    status_text: Seq<char>,
    response_body: Seq<char>,
    validation: Option<Seq<char>>,
) -> Seq<char> {
    if status == 400 {
        match validation {
            Some(error) => "Inference request validation failed: "@ + error,
            None => "Invalid inference request: "@ + response_body,
        }
    } else if status == 401 || status == 403 {
        "Authentication failed for inference service ("@ + status_text + "): "@ + response_body
    } else if is_server_error(status) {
        "Inference service error ("@ + status_text + "): "@ + response_body
    } else if is_client_error(status) {
        "Inference can't process request ("@ + status_text + "): "@ + response_body
    } else {
        "Unexpected inference error ("@ + status_text + "): "@ + response_body
    }
}

/// Whether an answer without embeddings is the fault of the request: a
/// status from 400 to 499, but for a failed authentication.
pub open spec fn failure_is_bad_request(status: u16) -> bool {
    is_client_error(status) && status != 401 && status != 403
}

/// `prefix`, the status in brackets, a colon, and the body.
fn describe(prefix: &str, status_text: &str, response_body: &str) -> (description: String)
    ensures
        description@ == prefix@ + status_text@ + "): "@ + response_body@,
{
    let mut description = prefix.to_owned();
    description.append(status_text);
    description.append("): ");
    description.append(response_body);
    description
}

/// Says what an answer of the inference service means. An answer with status
/// 200 carries embeddings, if `parsed_response` could read them from the
/// body; every other answer is an error, a bad request where the request was
/// at fault and a service error otherwise. `parsed_response` is looked at for
/// status 200 only, `parsed_error` for status 400 only.
pub fn handle_inference_response<R>(
    status: u16,
    status_text: &str,
    response_body: &str,
    parsed_response: Result<R, String>,
    parsed_error: Option<String>,
) -> (result: Result<R, StorageError>)
    ensures
        result is Ok <==> status == 200 && parsed_response is Ok,
        result matches Ok(response) ==> parsed_response == Ok::<R, String>(response),
        result matches Err(error) ==> if status == 200 {
            &&& error is ServiceError
            &&& error.description() == "Failed to parse successful inference response: "@
                + parsed_response->Err_0@ + ". Response body: "@ + response_body@
        } else {
            &&& error is BadRequest <==> failure_is_bad_request(status)
            &&& error.description() == failure_description(
                status,
                status_text@,
                response_body@,
                match parsed_error {
                    Some(error) => Some(error@),
                    None => None,
                },
            )
        },
{
    if status == 200 {
        match parsed_response {
            Ok(response) => Ok(response),
            Err(reason) => {
                let mut description = "Failed to parse successful inference response: ".to_owned();
                description.append(reason.as_str());
                description.append(". Response body: ");
                description.append(response_body);
                Err(StorageError::service_error(description))
            },
        }
    } else if status == 400 {
        // Try to extract error description from the response body, if it is a valid JSON
        match parsed_error {
            Some(error) => Err(
                StorageError::bad_request(
                    "Inference request validation failed: ".to_owned().concat(error.as_str()),
                ),
            ),
            None => Err(
                StorageError::bad_request(
                    "Invalid inference request: ".to_owned().concat(response_body),
                ),
            ),
        }
    } else if status == 401 || status == 403 {
        Err(
            StorageError::service_error(
                describe("Authentication failed for inference service (", status_text, response_body),
            ),
        )
    } else if status >= 500 && status < 600 {
        Err(
            StorageError::service_error(
                describe("Inference service error (", status_text, response_body),
            ),
        )
    } else if status >= 400 && status < 500 {
        Err(
            StorageError::bad_request(
                describe("Inference can't process request (", status_text, response_body),
            ),
        )
    } else {
        Err(
            StorageError::service_error(
                describe("Unexpected inference error (", status_text, response_body),
            ),
        )
    }
}

/// Pairs every object that was sent with the embedding that came back for it,
/// in order. Objects or embeddings that have no partner are left out. No
/// embeddings at all is an error.
pub fn pair_embeddings<O, V>(objects: Vec<O>, embeddings: Vec<V>) -> (paired: Result<
    Vec<(O, V)>,
    StorageError,
>)
    ensures
        paired is Ok <==> embeddings@.len() > 0,
        paired matches Ok(pairs) ==> {
            &&& pairs@.len() == if objects@.len() <= embeddings@.len() {
                objects@.len()
            } else {
                embeddings@.len()
            }
            &&& forall|i: int|
                0 <= i < pairs@.len() ==> #[trigger] pairs@[i] == (objects@[i], embeddings@[i])
        },
        paired matches Err(error) ==> error is ServiceError && error.description()
            == "Inference service returned no vectors. Check if models are properly loaded."@,
{
    if embeddings.len() == 0 {
        return Err(
            StorageError::service_error(
                "Inference service returned no vectors. Check if models are properly loaded.".to_owned(),
            ),
        );
    }
    let mut objects = objects;
    let mut embeddings = embeddings;
    let ghost all_objects = objects@;
    let ghost all_embeddings = embeddings@;
    let count: usize = if objects.len() <= embeddings.len() {
        objects.len()
    } else {
        embeddings.len()
    };
    objects.truncate(count);
    embeddings.truncate(count);
    // take the pairs off the end, which puts them in reverse
    let mut reversed: Vec<(O, V)> = Vec::new();
    while objects.len() > 0
        invariant
            objects@.len() == embeddings@.len(),
            objects@.len() + reversed@.len() == count,
            count <= all_objects.len(),
            count <= all_embeddings.len(),
            objects@ == all_objects.take(objects@.len() as int),
            embeddings@ == all_embeddings.take(embeddings@.len() as int),
            forall|i: int|
                0 <= i < reversed@.len() ==> #[trigger] reversed@[i] == (
                    all_objects[count - 1 - i],
                    all_embeddings[count - 1 - i],
                ),
        decreases objects@.len(),
    {
        let object = objects.pop();
        let embedding = embeddings.pop();
        match (object, embedding) {
            (Some(object), Some(embedding)) => {
                reversed.push((object, embedding));
            },
            _ => {},
        }
    }
    let mut pairs: Vec<(O, V)> = Vec::new();
    while reversed.len() > 0
        invariant
            reversed@.len() + pairs@.len() == count,
            forall|i: int|
                0 <= i < reversed@.len() ==> #[trigger] reversed@[i] == (
                    all_objects[count - 1 - i],
                    all_embeddings[count - 1 - i],
                ),
            forall|i: int|
                0 <= i < pairs@.len() ==> #[trigger] pairs@[i] == (all_objects[i], all_embeddings[i]),
        decreases reversed@.len(),
    {
        match reversed.pop() {
            Some(pair) => {
                pairs.push(pair);
            },
            None => {},
        }
    }
    Ok(pairs)
}

} // verus!
