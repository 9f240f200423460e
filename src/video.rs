//! Video links of demons: which service hosts a video, and the address that embeds it.
use vstd::prelude::*;
use vstd::string::StringExecFns;

verus! {

/// The domain of a text parsed as an absolute URL; `None` when it does not parse or its
/// host is not a domain name.
pub uninterp spec fn domain_of(s: Seq<char>) -> Option<Seq<char>>;

/// The decoded name/value pairs of the query of a text parsed as an absolute URL, in
/// order; `None` when it does not parse.
pub uninterp spec fn query_pairs_of(s: Seq<char>) -> Option<Seq<(Seq<char>, Seq<char>)>>;

/// The path segments of a text parsed as an absolute URL; `None` when it does not parse or
/// cannot be a base.
pub uninterp spec fn path_segments_of(s: Seq<char>) -> Option<Seq<Seq<char>>>;

pub open spec fn string_views(v: Seq<String>) -> Seq<Seq<char>> {
    v.map_values(|s: String| s@)
}

pub open spec fn pair_views(v: Seq<(String, String)>) -> Seq<(Seq<char>, Seq<char>)> {
    v.map_values(|p: (String, String)| (p.0@, p.1@))
}

pub open spec fn segments_view(s: Option<Vec<String>>) -> Option<Seq<Seq<char>>> {
    match s {
        Some(v) => Some(string_views(v@)),
        None => None,
    }
}

/// Relies on `url::Url::parse` and `url::Url::domain`: the domain depends on the text
/// alone. Parsing returns an error rather than panicking.
#[verifier::external_body]
fn url_domain(s: &str) -> (r: Option<String>)
    ensures
        match r {
            Some(d) => domain_of(s@) == Some(d@),
            None => domain_of(s@) is None,
        },
{
    url::Url::parse(s).ok().and_then(|u| u.domain().map(String::from))
}

/// Relies on `url::Url::parse` and `url::Url::query_pairs`: the pairs depend on the text
/// alone.
#[verifier::external_body]
fn url_query_pairs(s: &str) -> (r: Option<Vec<(String, String)>>)
    ensures
        match r {
            Some(v) => query_pairs_of(s@) == Some(pair_views(v@)),
            None => query_pairs_of(s@) is None,
        },
{
    url::Url::parse(s).ok().map(|u| u.query_pairs().map(|(k, v)| (k.into_owned(), v.into_owned())).collect())
}

/// Relies on `url::Url::parse` and `url::Url::path_segments`: the segments (the path split
/// at each `/`) depend on the text alone.
#[verifier::external_body]
fn url_path_segments(s: &str) -> (r: Option<Vec<String>>)
    ensures
        segments_view(r) == path_segments_of(s@),
{
    url::Url::parse(s).ok().and_then(|u| u.path_segments().map(|p| p.map(String::from).collect()))
}

/// A service that hosts demon videos.
#[derive(Clone, Copy, Debug, PartialEq, Eq, Structural)]
pub enum VideoHost {
    YouTube,
    Twitch,
    Everyplay,
    Bilibili,
    Vimeo,
}

/// The service behind a domain.
pub open spec fn host_of(domain: Seq<char>) -> Option<VideoHost> {
    if domain == "www.youtube.com"@ {
        Some(VideoHost::YouTube)
    } else if domain == "www.twitch.tv"@ {
        Some(VideoHost::Twitch)
    } else if domain == "everyplay.com"@ {
        Some(VideoHost::Everyplay)
    } else if domain == "www.bilibili.com"@ {
        Some(VideoHost::Bilibili)
    } else if domain == "vimeo.com"@ {
        Some(VideoHost::Vimeo)
    } else {
        None
    }
}

pub open spec fn label_of(h: VideoHost) -> Seq<char> {
    match h {
        VideoHost::YouTube => "YouTube"@,
        VideoHost::Twitch => "Twitch"@,
        VideoHost::Everyplay => "Everyplay"@,
        VideoHost::Bilibili => "Bilibili"@,
        VideoHost::Vimeo => "Vimeo"@,
    }
}

impl VideoHost {
    /// The name the service is shown with.
    pub fn label(&self) -> (r: &'static str)
        ensures
            r@ == label_of(*self),
    {
        match self {
            VideoHost::YouTube => "YouTube",
            VideoHost::Twitch => "Twitch",
            VideoHost::Everyplay => "Everyplay",
            VideoHost::Bilibili => "Bilibili",
            VideoHost::Vimeo => "Vimeo",
        }
    }
}

/// The service behind `domain`, if it is one of the known ones.
pub fn host_of_domain(domain: &String) -> (r: Option<VideoHost>)
    ensures
        r == host_of(domain@),
{
    if *domain == String::from_str("www.youtube.com") {
        Some(VideoHost::YouTube)
    } else if *domain == String::from_str("www.twitch.tv") {
        Some(VideoHost::Twitch)
    } else if *domain == String::from_str("everyplay.com") {
        Some(VideoHost::Everyplay)
    } else if *domain == String::from_str("www.bilibili.com") {
        Some(VideoHost::Bilibili)
    } else if *domain == String::from_str("vimeo.com") {
        Some(VideoHost::Vimeo)
    } else {
        None
    }
}

/// The value of the first pair from index `i` on whose name is `key`.
pub open spec fn first_value(pairs: Seq<(Seq<char>, Seq<char>)>, i: int, key: Seq<char>) -> Option<Seq<char>>
    decreases pairs.len() - i,
{
    if i < 0 || i >= pairs.len() {
        None
    } else if pairs[i].0 == key {
        Some(pairs[i].1)
    } else {
        first_value(pairs, i + 1, key)
    }
}

/// The address that embeds a video, from its service, its query pairs and its path
/// segments: a YouTube video by its `v` parameter, a Twitch video by its second path
/// segment; no other service is embedded.
pub open spec fn embed_of(
    host: Option<VideoHost>,
    pairs: Seq<(Seq<char>, Seq<char>)>,
    segments: Option<Seq<Seq<char>>>,
) -> Option<Seq<char>> {
    match host {
        Some(VideoHost::YouTube) => match first_value(pairs, 0, "v"@) {
            Some(v) => Some("https://www.youtube.com/embed/"@ + v),
            None => None,
        },
        Some(VideoHost::Twitch) => match segments {
            Some(s) => if s.len() >= 2 {
                Some("https://player.twitch.tv/?video="@ + s[1] + "&autoplay=false"@)
            } else {
                None
            },
            None => None,
        },
        _ => None,
    }
}

/// The embedding address of a video of `host` with the given query pairs and path segments.
pub fn embed_for(host: Option<VideoHost>, pairs: &Vec<(String, String)>, segments: &Option<Vec<String>>) -> (r: Option<String>)
    ensures
        match r {
            Some(s) => embed_of(host, pair_views(pairs@), segments_view(*segments)) == Some(s@),
            None => embed_of(host, pair_views(pairs@), segments_view(*segments)) is None,
        },
{
    match host {
        Some(VideoHost::YouTube) => {
            let key = String::from_str("v");
            let mut i: usize = 0;
            while i < pairs.len()
                invariant
                    i <= pairs@.len(),
                    key@ == "v"@,
                    host == Some(VideoHost::YouTube),
                    first_value(pair_views(pairs@), 0, "v"@) == first_value(pair_views(pairs@), i as int, "v"@),
                decreases pairs@.len() - i,
            {
                if pairs[i].0 == key {
                    let prefix = String::from_str("https://www.youtube.com/embed/");
                    return Some(prefix.concat(pairs[i].1.as_str()));
                }
                i = i + 1;
            }
            None
        },
        Some(VideoHost::Twitch) => match segments {
            Some(s) => {
                if s.len() >= 2 {
                    let prefix = String::from_str("https://player.twitch.tv/?video=");
                    let with_id = prefix.concat(s[1].as_str());
                    Some(with_id.concat("&autoplay=false"))
                } else {
                    None
                }
            },
            None => None,
        },
        _ => None,
    }
}

/// The service hosting the video at the address `video`.
pub open spec fn host_of_text(video: Seq<char>) -> Option<VideoHost> {
    match domain_of(video) {
        Some(d) => host_of(d),
        None => None,
    }
}

/// The embedding address of the video at the address `video`.
pub open spec fn embed_of_text(video: Seq<char>) -> Option<Seq<char>> {
    match domain_of(video) {
        Some(d) => match query_pairs_of(video) {
            Some(pairs) => embed_of(host_of(d), pairs, path_segments_of(video)),
            None => None,
        },
        None => None,
    }
}

/// The service hosting the video at `video`; `None` when the address does not parse, has
/// no domain, or names no known service.
pub fn host(video: &str) -> (r: Option<VideoHost>)
    ensures
        r == host_of_text(video@),
{
    match url_domain(video) {
        Some(d) => host_of_domain(&d),
        None => None,
    }
}

/// The address that embeds the video at `video`, for YouTube and Twitch videos.
pub fn embed(video: &str) -> (r: Option<String>)
    ensures
        match r {
            Some(s) => embed_of_text(video@) == Some(s@),
            None => embed_of_text(video@) is None,
        },
{
    let host = match url_domain(video) {
        Some(d) => host_of_domain(&d),
        None => {
            return None;
        },
    };
    let pairs = match url_query_pairs(video) {
        Some(p) => p,
        None => {
            return None;
        },
    };
    let segments = url_path_segments(video);
    embed_for(host, &pairs, &segments)
}

} // verus!
