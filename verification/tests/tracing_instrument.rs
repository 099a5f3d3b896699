use rust_analyzer_api::tracing_instrument::{f, g, Args};

#[test]
fn tracing_instrument_run() {
    tracing_subscriber::fmt()
        .with_max_level(tracing_subscriber::filter::LevelFilter::INFO)
        .with_thread_ids(true)
        .with_thread_names(true)
        .init();
    f("a", Args { b: 1 });
}

#[test]
fn env_logger_log_instrument() {
    env_logger::builder()
        .filter_level(log::LevelFilter::Info)
        .init();
    f("a", Args { b: 1 });
}

#[test]
fn inner_call_accepts_one() {
    let args = Args { b: 1 };
    g(&args);
    assert_eq!(format!("{:?}", args), "Args { b: 1 }");
}
