use demonlist::video::{embed, embed_for, host, host_of_domain, VideoHost};

#[test]
fn hosts_of_known_services() {
    assert_eq!(host("https://www.youtube.com/watch?v=dQw4w9WgXcQ"), Some(VideoHost::YouTube));
    assert_eq!(host("https://www.twitch.tv/videos/12345/"), Some(VideoHost::Twitch));
    assert_eq!(host("https://everyplay.com/videos/1"), Some(VideoHost::Everyplay));
    assert_eq!(host("https://www.bilibili.com/video/av1"), Some(VideoHost::Bilibili));
    assert_eq!(host("https://vimeo.com/123"), Some(VideoHost::Vimeo));
    assert_eq!(host("https://www.youtube.com/watch?v=x").unwrap().label(), "YouTube");
    assert_eq!(VideoHost::Vimeo.label(), "Vimeo");
}

#[test]
fn unknown_or_malformed_addresses_have_no_host() {
    assert_eq!(host("https://example.com/video"), None);
    assert_eq!(host("not a url"), None);
    assert_eq!(host("https://127.0.0.1/video"), None);
    assert_eq!(host_of_domain(&"youtube.com".to_string()), None);
    assert_eq!(host_of_domain(&"www.twitch.tv".to_string()), Some(VideoHost::Twitch));
}

#[test]
fn youtube_videos_embed_by_their_v_parameter() {
    assert_eq!(
        embed("https://www.youtube.com/watch?v=dQw4w9WgXcQ&t=10"),
        Some("https://www.youtube.com/embed/dQw4w9WgXcQ".to_string())
    );
    assert_eq!(
        embed("https://www.youtube.com/watch?t=10&v=abc&v=def"),
        Some("https://www.youtube.com/embed/abc".to_string())
    );
    assert_eq!(embed("https://www.youtube.com/watch?t=10"), None);
}

#[test]
fn twitch_videos_embed_by_their_second_segment() {
    assert_eq!(
        embed("https://www.twitch.tv/videos/12345/"),
        Some("https://player.twitch.tv/?video=12345&autoplay=false".to_string())
    );
    assert_eq!(embed("https://www.twitch.tv/videos"), None);
}

#[test]
fn other_services_are_not_embedded() {
    assert_eq!(embed("https://vimeo.com/123"), None);
    assert_eq!(embed("garbage"), None);
    let pairs = vec![("v".to_string(), "zzz".to_string())];
    assert_eq!(embed_for(Some(VideoHost::Bilibili), &pairs, &None), None);
    assert_eq!(
        embed_for(Some(VideoHost::YouTube), &pairs, &None),
        Some("https://www.youtube.com/embed/zzz".to_string())
    );
    let segments = Some(vec!["videos".to_string(), "9".to_string()]);
    assert_eq!(
        embed_for(Some(VideoHost::Twitch), &Vec::new(), &segments),
        Some("https://player.twitch.tv/?video=9&autoplay=false".to_string())
    );
}
