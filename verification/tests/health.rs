use liveness::health::{health, respond, Body, Reply, HEALTH_PATH};

#[test]
fn health_is_ok() {
    let reply = health();
    assert_eq!(reply.status, 200);
    let body = reply.body.unwrap();
    assert_eq!(body.content_type, "application/json");
    assert_eq!(body.text, "{\"status\":\"ok\"}");
}

#[test]
fn health_body_is_the_json_object() {
    let body = health().body.unwrap();
    let value: serde_json::Value = serde_json::from_str(&body.text).unwrap();
    let mut object = serde_json::Map::new();
    object.insert(String::from("status"), serde_json::Value::String(String::from("ok")));
    assert_eq!(value, serde_json::Value::Object(object));
}

#[test]
fn get_health_is_answered() {
    assert_eq!(HEALTH_PATH, "/health");
    assert_eq!(respond("GET", "/health"), health());
    assert_eq!(
        respond("GET", "/health"),
        Reply {
            status: 200,
            body: Some(Body {
                content_type: "application/json",
                text: String::from("{\"status\":\"ok\"}"),
            }),
        }
    );
}

#[test]
fn other_methods_are_not_allowed() {
    for method in ["POST", "PUT", "DELETE", "PATCH", "HEAD", "OPTIONS", "get", "GET ", ""] {
        assert_eq!(respond(method, "/health"), Reply { status: 405, body: None });
    }
}

#[test]
fn other_paths_are_not_found() {
    for path in ["/", "", "/health/", "/healthz", "/Health", "health", "/health?x=1", "/api/health"] {
        assert_eq!(respond("GET", path), Reply { status: 404, body: None });
        assert_eq!(respond("POST", path), Reply { status: 404, body: None });
    }
}
