use semantic_search::qdrant::client::grpc_url;

#[test]
fn grpc_url_swaps_the_port() {
    assert_eq!(grpc_url("http://localhost:6333"), "http://localhost:6334");
    assert_eq!(grpc_url("http://6333.example:6333/x"), "http://6334.example:6334/x");
}

#[test]
fn grpc_url_falls_back_to_the_local_default() {
    assert_eq!(grpc_url("http://example.com:7000"), "http://localhost:6334");
    assert_eq!(grpc_url(""), "http://localhost:6334");
    assert_eq!(grpc_url("http://localhost:633"), "http://localhost:6334");
}
