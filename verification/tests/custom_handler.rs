use cw_plus::multitest::app::CachingCustomHandler;

#[test]
fn caching_handler_records_and_resets() {
    let mut handler: CachingCustomHandler<u32, String> = CachingCustomHandler::new();
    handler.execute(1);
    handler.execute(2);
    assert_eq!(handler.query("balance".to_string()), Vec::<u8>::new());
    assert_eq!(handler.state().execs(), &[1, 2]);
    assert_eq!(handler.state().queries(), &["balance".to_string()]);
    handler.reset();
    assert!(handler.state().execs().is_empty());
    assert!(handler.state().queries().is_empty());
}
