use spidero::errors::SpiderError;

#[test]
fn client_error_becomes_hatch_error() {
    let err = reqwest::Proxy::all("::not a url::").err().expect("a proxy address that is no URL is refused");
    let e: SpiderError = SpiderError::from(err);
    assert!(matches!(e, SpiderError::HatchError(_)));
}
