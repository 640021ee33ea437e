use scrapy::{get_all_models, get_models, index, on_client_frame, ClientFrame, MessageType, SocketStep};

#[test]
fn index_greets() {
    assert_eq!(index(), "Welcome to the web scraping API!");
}

#[test]
fn models_are_listed() {
    assert_eq!(get_all_models(), vec!["gemini-1.5-flash-latest".to_string()]);
    assert_eq!(get_models(), get_all_models());
}

#[test]
fn message_types_compare_by_variant() {
    assert_eq!(MessageType::Progress, MessageType::Progress.clone());
    assert_ne!(MessageType::Error, MessageType::Warning);
}

#[test]
fn socket_keeps_serving_data_frames() {
    assert_eq!(on_client_frame(ClientFrame::Text), SocketStep::Continue);
    assert_eq!(on_client_frame(ClientFrame::Binary), SocketStep::Continue);
    assert_eq!(on_client_frame(ClientFrame::Ping), SocketStep::Continue);
    assert_eq!(on_client_frame(ClientFrame::Pong), SocketStep::Continue);
}

#[test]
fn socket_stops_on_close_or_raw_frame() {
    assert_eq!(on_client_frame(ClientFrame::Frame), SocketStep::CloseAndStop);
    assert_eq!(on_client_frame(ClientFrame::Close), SocketStep::Stop);
    assert_eq!(on_client_frame(ClientFrame::Ended), SocketStep::Stop);
}
