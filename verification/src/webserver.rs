//! The local web server that hands out the files of plugins: which requests it
//! answers, and how.
use vstd::prelude::*;
use crate::path;
use crate::path::{extension, relative_to};
use crate::text;
use crate::text::{
    chars_of, concat2, owned, same_text, split_once, starts_with, strip_suffix, text_of_range, trim,
};

verus! {

/// An origin whose pages may read the files of plugins: one on this machine.
pub open spec fn allowed_origin(origin: Seq<char>) -> bool {
    let o = text::trimmed(origin);
    ||| "http://localhost:"@.is_prefix_of(o)
    ||| "http://127.0.0.1:"@.is_prefix_of(o)
    ||| "https://localhost:"@.is_prefix_of(o)
    ||| "https://127.0.0.1:"@.is_prefix_of(o)
    ||| o == "tauri://localhost"@
    ||| o == "https://tauri.localhost"@
}

/// An origin whose pages may read the files of plugins.
pub fn is_allowed_origin(origin: &str) -> (r: bool)
    ensures
        r == allowed_origin(origin@),
{
    let o = trim(origin);
    starts_with(&o, "http://localhost:") || starts_with(&o, "http://127.0.0.1:") || starts_with(
        &o,
        "https://localhost:",
    ) || starts_with(&o, "https://127.0.0.1:") || same_text(&o, "tauri://localhost") || same_text(
        &o,
        "https://tauri.localhost",
    )
}

/// The value of `Access-Control-Allow-Origin`: the origin of the request, where
/// it is allowed.
pub open spec fn granted(origin: Option<Seq<char>>) -> Option<Seq<char>> {
    match origin {
        Some(o) => if allowed_origin(o) {
            Some(o)
        } else {
            None
        },
        None => None,
    }
}

/// The value of `Access-Control-Allow-Origin` for a request.
pub fn access_control_allow_origin_for(origin: &Option<String>) -> (r: Option<String>)
    ensures
        text::opt_text(r) == granted(text::opt_text(*origin)),
{
    match origin {
        Some(o) => if is_allowed_origin(o) {
            Some(o.clone())
        } else {
            None
        },
        None => None,
    }
}

/// `url` with a single slash in place of those that lead it.
pub open spec fn single_slash(url: Seq<char>) -> Seq<char>
    decreases url.len(),
{
    if url.len() >= 2 && url[0] == '/' && url[1] == '/' {
        single_slash(url.drop_first())
    } else {
        url
    }
}

/// `url` with a single slash in place of those that lead it.
pub fn normalize_url_path(url: &str) -> (r: String)
    ensures
        r@ == single_slash(url@),
{
    let v = chars_of(url);
    let mut i: usize = 0;
    assert(v@.skip(0) =~= v@);
    while v.len() - i >= 2 && v[i] == '/' && v[i + 1] == '/'
        invariant
            v@ == url@,
            i <= v@.len(),
            single_slash(url@) == single_slash(v@.skip(i as int)),
        decreases v@.len() - i,
    {
        assert(v@.skip(i as int).drop_first() =~= v@.skip(i + 1));
        i = i + 1;
    }
    let r = text_of_range(&v, i, v.len());
    assert(r@ =~= v@.skip(i as int));
    r
}

/// The media type of a file extension.
pub open spec fn media_type(ext: Seq<char>) -> Seq<char> {
    if ext == "htm"@ || ext == "html"@ || ext == "xhtml"@ {
        "text/html"@
    } else if ext == "js"@ || ext == "cjs"@ || ext == "mjs"@ {
        "text/javascript"@
    } else if ext == "css"@ {
        "text/css"@
    } else if ext == "png"@ || ext == "jpeg"@ || ext == "gif"@ || ext == "webp"@ {
        "image/"@ + ext
    } else if ext == "jpg"@ {
        "image/jpeg"@
    } else if ext == "svg"@ {
        "image/svg+xml"@
    } else {
        "application/octet-stream"@
    }
}

/// The media type of a file extension.
pub fn mime(ext: &str) -> (r: String)
    ensures
        r@ == media_type(ext@),
{
    if same_text(ext, "htm") || same_text(ext, "html") || same_text(ext, "xhtml") {
        owned("text/html")
    } else if same_text(ext, "js") || same_text(ext, "cjs") || same_text(ext, "mjs") {
        owned("text/javascript")
    } else if same_text(ext, "css") {
        owned("text/css")
    } else if same_text(ext, "png") || same_text(ext, "jpeg") || same_text(ext, "gif") || same_text(
        ext,
        "webp",
    ) {
        concat2("image/", ext)
    } else if same_text(ext, "jpg") {
        owned("image/jpeg")
    } else if same_text(ext, "svg") {
        owned("image/svg+xml")
    } else {
        owned("application/octet-stream")
    }
}

/// What a percent-encoded URL decodes to.
pub uninterp spec fn url_decoded(s: Seq<char>) -> Option<Seq<char>>;

/// `urlencoding::decode`, a function of the text alone; `None` where the result
/// is no UTF-8. A text without `%` decodes to itself.
#[verifier::external_body]
fn decode_url(s: &str) -> (r: Option<String>)
    ensures
        text::opt_text(r) == url_decoded(s@),
        !s@.contains('%') ==> text::opt_text(r) == Some(s@),
{
    urlencoding::decode(s).ok().map(|d| d.into_owned())
}

/// The path that a decoded URL asks for: without repeated leading slashes and
/// without a query.
pub open spec fn asked_path(url: Seq<char>) -> Seq<char> {
    let u = single_slash(url);
    if u.contains('?') {
        u.take(text::index_of_char(u, '?'))
    } else {
        u
    }
}

/// The path that a decoded URL asks for.
pub fn path_of_url(url: &str) -> (r: String)
    ensures
        r@ == asked_path(url@),
{
    let u = normalize_url_path(url);
    match split_once(&u, '?') {
        Some(p) => p.0,
        None => u,
    }
}

/// How a page is served.
#[derive(Clone, Copy, PartialEq, Eq, Structural, Debug)]
pub enum Served {
    /// As a property inspector, with the host's script behind it.
    Inspector,
    /// As a child of a property inspector, with a script before it.
    InspectorChild,
    /// As it is.
    Plain,
}

/// The file that a path means, and how it is served: a suffix of the path says
/// that it is a property inspector.
pub open spec fn served_file(p: Seq<char>) -> (Seq<char>, Served) {
    if "|riverdeck_property_inspector"@.is_suffix_of(p) {
        (p.take(p.len() - "|riverdeck_property_inspector"@.len()), Served::Inspector)
    } else if "|riverdeck_property_inspector_child"@.is_suffix_of(p) {
        (p.take(p.len() - "|riverdeck_property_inspector_child"@.len()), Served::InspectorChild)
    } else {
        (p, Served::Plain)
    }
}

/// The file that a path means, and how it is served.
pub fn file_of_path(p: &str) -> (r: (String, Served))
    ensures
        (r.0@, r.1) == served_file(p@),
{
    match strip_suffix(p, "|riverdeck_property_inspector") {
        Some(f) => (f, Served::Inspector),
        None => match strip_suffix(p, "|riverdeck_property_inspector_child") {
            Some(f) => (f, Served::InspectorChild),
            None => (owned(p), Served::Plain),
        },
    }
}

/// What is to be done with a request at first.
pub enum Request {
    /// Answer a preflight with status 204 and, where the origin is allowed,
    /// with what is allowed.
    Preflight,
    /// Answer with status 400.
    Undecodable,
    /// Look at a file, which is served in some way.
    File { file: String, served: Served },
}

/// Takes a request apart.
pub fn read_request(method: &str, url: &str) -> (r: Request)
    ensures
        match r {
            Request::Preflight => method@ == "OPTIONS"@,
            Request::Undecodable => method@ != "OPTIONS"@ && url_decoded(url@) is None,
            Request::File { file, served } => method@ != "OPTIONS"@ && url_decoded(url@) is Some
                && (file@, served) == served_file(asked_path(url_decoded(url@)->0)),
        },
{
    if same_text(method, "OPTIONS") {
        return Request::Preflight;
    }
    match decode_url(url) {
        Some(u) => {
            let (file, served) = file_of_path(&path_of_url(&u));
            Request::File { file, served }
        },
        None => Request::Undecodable,
    }
}

/// What is known of a file that is asked for.
pub struct FileFacts {
    /// The real path of the directory whose files are handed out.
    pub prefix: Option<String>,
    /// The real path of the file that is handed out; `None` where there is none.
    pub file: Option<String>,
}

/// The answer to a request.
#[derive(Clone, Copy, PartialEq, Eq, Structural, Debug)]
pub enum Answer {
    /// Status 500, without headers.
    NoPrefix,
    /// Status 404.
    NotFound,
    /// Status 403.
    Forbidden,
    /// The file.
    Serve(Served),
}

/// A real path lies below the real path of a directory.
pub open spec fn lies_below(file: Seq<char>, dir: Seq<char>) -> bool {
    path::path_components(dir).is_prefix_of(path::path_components(file))
}

/// The answer to a request for a file: the file, if it exists and lies below the
/// directory whose files are handed out. Both are given by their real paths.
pub open spec fn answer(served: Served, prefix: Option<Seq<char>>, file: Option<Seq<char>>) -> Answer {
    match (prefix, file) {
        (None, _) => Answer::NoPrefix,
        (Some(_), None) => Answer::NotFound,
        (Some(base), Some(found)) => if lies_below(found, base) {
            Answer::Serve(served)
        } else {
            Answer::Forbidden
        },
    }
}

/// The answer to a request for a file.
pub fn answer_request(served: Served, facts: &FileFacts) -> (r: Answer)
    ensures
        r == answer(served, text::opt_text(facts.prefix), text::opt_text(facts.file)),
{
    match &facts.prefix {
        None => Answer::NoPrefix,
        Some(base) => match &facts.file {
            None => Answer::NotFound,
            Some(found) => {
                if relative_to(found, base).is_none() {
                    Answer::Forbidden
                } else {
                    Answer::Serve(served)
                }
            },
        },
    }
}

/// A file is handed out if and only if its real path lies below the real path of
/// the directory whose files are handed out.
pub proof fn law_only_files_below_prefix(
    served: Served,
    prefix: Option<Seq<char>>,
    file: Option<Seq<char>>,
)
    ensures
        answer(served, prefix, file) is Serve <==> prefix is Some && file is Some && lies_below(
            file->0,
            prefix->0,
        ),
        answer(served, prefix, file) matches Answer::Serve(s) ==> s == served,
{
}

/// How the contents of a file are sent.
pub struct ContentType {
    pub media_type: String,
    /// Whether the file is sent as text.
    pub as_text: bool,
}

/// The media type of a path: by its extension, HTML where it has none.
pub open spec fn content_media_type(p: Seq<char>) -> Seq<char> {
    media_type(
        match path::extension_of(p) {
            Some(e) => e,
            None => "html"@,
        },
    )
}

/// How the contents of the file at `p` are sent.
pub fn content_type_of(p: &str) -> (r: ContentType)
    ensures
        r.media_type@ == content_media_type(p@),
        r.as_text == is_textual(r.media_type@),
{
    let ext = match extension(p) {
        Some(e) => e,
        None => owned("html"),
    };
    let media_type = mime(&ext);
    let as_text = starts_with(&media_type, "text/") || same_text(&media_type, "image/svg+xml");
    ContentType { media_type, as_text }
}

/// The page of a child of a property inspector.
pub fn inspector_child_page(content: &str) -> (r: String)
    ensures
        r@ == "<script>window.opener ??= window.parent;</script>"@ + content@,
{
    concat2("<script>window.opener ??= window.parent;</script>", content)
}

/// The page of a property inspector: the file, and the script of the host behind
/// it.
pub fn inspector_page(content: &str, script: &str) -> (r: String)
    ensures
        r@ == content@ + script@,
{
    concat2(content, script)
}

/// What stands behind the page of a property inspector: it passes the messages of
/// the host on, tells the host of the token of the page, and opens windows as
/// frames.
pub const INSPECTOR_SCRIPT: &'static str = r#"
				<div id="riverdeck_iframe_container" style="position: absolute; z-index: 100; top: 0; left: 0; width: 100%; height: 100%; display: none;"></div>
				<script>
					const riverdeck_window_open = window.open;
					const riverdeck_iframe_container = document.getElementById("riverdeck_iframe_container");
					const riverdeck_allowed_origin = (() => { try { return document.referrer ? new URL(document.referrer).origin : null; } catch (_) { return null; } })();
					const riverdeck_token = (() => { try { return new URLSearchParams(window.location.search).get("riverdeck_token"); } catch (_) { return null; } })();

					// RiverDeck extension: best-effort auth for property inspector sockets.
					// We can't change third-party PI code, so we monkey-patch `WebSocket.send` to send a
					// `riverdeckAuth` message immediately after the PI's first send (which is the register event).
					(() => {
						if (window.__riverdeck_ws_patched) return;
						window.__riverdeck_ws_patched = true;
						const NativeWebSocket = window.WebSocket;
						window.WebSocket = function(url, protocols) {
							const ws = protocols ? new NativeWebSocket(url, protocols) : new NativeWebSocket(url);
							const origSend = ws.send.bind(ws);
							let sentAuth = false;
							ws.send = (data) => {
								const res = origSend(data);
								if (!sentAuth && window.__riverdeck_pi_uuid && window.__riverdeck_pi_token) {
									sentAuth = true;
									try {
										origSend(JSON.stringify({
											event: "riverdeckAuth",
											uuid: window.__riverdeck_pi_uuid,
											token: window.__riverdeck_pi_token
										}));
									} catch (_) {}
								}
								return res;
							};
							return ws;
						};
						window.WebSocket.prototype = NativeWebSocket.prototype;
					})();

					window.addEventListener("message", (event) => {
						const { data } = event;
						if (riverdeck_allowed_origin && event.origin !== riverdeck_allowed_origin) return;
						if (data.event == "connect") {
							event.stopImmediatePropagation();
							// Save PI UUID/token for the WebSocket wrapper above.
							try {
								window.__riverdeck_pi_uuid = data.payload && data.payload.length ? data.payload[1] : null;
								window.__riverdeck_pi_token = riverdeck_token;
							} catch (_) {}
							if (typeof connectOpenActionSocket === "function") connectOpenActionSocket(...data.payload);
							else connectElgatoStreamDeckSocket(...data.payload);
						} else if (data.event == "windowClosed") {
							event.stopImmediatePropagation();
							if (riverdeck_iframe_container.firstElementChild) riverdeck_iframe_container.firstElementChild.remove();
							riverdeck_iframe_container.style.display = "none";
						}
					});

					window.open = (url, target) => {
						if (target && !(target == "_self" || target == "_top")) {
							top.postMessage({ event: "openUrl", payload: url.startsWith("http") ? url : new URL(url, window.location.href).href }, riverdeck_allowed_origin ?? "*");
							return;
						}
						let iframe = document.createElement("iframe");
						iframe.style.flexGrow = "1";
						iframe.onload = () => {
							iframe.contentWindow.opener = window;
							iframe.contentWindow.onbeforeunload = () => top.postMessage({ event: "windowClosed", payload: window.name }, riverdeck_allowed_origin ?? "*");
							iframe.contentWindow.close = () => { iframe.contentWindow.onbeforeunload(); iframe.remove(); };
							iframe.contentWindow.document.body.style.overflowY = "auto";
						};
						iframe.src = url.startsWith("http") ? url : url + "|riverdeck_property_inspector_child";
						if (riverdeck_iframe_container.firstElementChild) riverdeck_iframe_container.firstElementChild.remove();
						riverdeck_iframe_container.appendChild(iframe);
						riverdeck_iframe_container.style.display = "flex";
						top.postMessage({ event: "windowOpened", payload: window.name }, riverdeck_allowed_origin ?? "*");
						return iframe.contentWindow;
					};

					const riverdeck_window_fetch = window.fetch;
					let riverdeck_fetch_count = 0;
					let riverdeck_fetch_promises = {};
					window.addEventListener("message", (event) => {
						const { data } = event;
						if (riverdeck_allowed_origin && event.origin !== riverdeck_allowed_origin) return;
						if (data.event == "fetchResponse") {
							event.stopImmediatePropagation();
							const response = new Response(data.payload.response.body, data.payload.response);
							Object.defineProperty(response, "url", { value: data.payload.response.url });
							riverdeck_fetch_promises[data.payload.id].resolve(response);
							delete riverdeck_fetch_promises[data.payload.id];
						} else if (data.event == "fetchError") {
							event.stopImmediatePropagation();
							riverdeck_fetch_promises[data.payload.id].reject(data.payload.error);
							delete riverdeck_fetch_promises[data.payload.id];
						}
					});
					window.fetch = (...args) => {
						if (args.length) args[0] = new URL(args[0], window.location.href).href;
						top.postMessage({ event: "fetch", payload: { args, context: window.name, id: ++riverdeck_fetch_count }}, riverdeck_allowed_origin ?? "*");
						return new Promise((resolve, reject) => { riverdeck_fetch_promises[riverdeck_fetch_count] = { resolve, reject }; });
					};
				</script>
			"#;

/// What is sent.
pub enum Body {
    Empty,
    Text(String),
    /// The bytes of the file.
    File,
}

/// The model of a `Body`.
pub enum BodyView {
    Empty,
    Text(Seq<char>),
    File,
}

/// The reply to a request.
pub struct Reply {
    pub status: u16,
    /// Whether an allowed origin is told that it is.
    pub grants_origin: bool,
    pub media_type: Option<String>,
    pub body: Body,
}

/// The model of a `Reply`.
pub struct ReplyView {
    pub status: u16,
    pub grants_origin: bool,
    pub media_type: Option<Seq<char>>,
    pub body: BodyView,
}

impl View for Reply {
    type V = ReplyView;

    open spec fn view(&self) -> ReplyView {
        ReplyView {
            status: self.status,
            grants_origin: self.grants_origin,
            media_type: text::opt_text(self.media_type),
            body: match self.body {
                Body::Empty => BodyView::Empty,
                Body::Text(t) => BodyView::Text(t@),
                Body::File => BodyView::File,
            },
        }
    }
}

/// A file of this media type is sent as text.
pub open spec fn is_textual(media_type: Seq<char>) -> bool {
    "text/"@.is_prefix_of(media_type) || media_type == "image/svg+xml"@
}

/// The reply with an answer. `content` is the text of the file at `file`.
pub open spec fn reply_with(a: Answer, file: Seq<char>, content: Seq<char>) -> ReplyView {
    match a {
        Answer::NoPrefix => ReplyView {
            status: 500,
            grants_origin: false,
            media_type: None,
            body: BodyView::Empty,
        },
        Answer::NotFound => ReplyView {
            status: 404,
            grants_origin: true,
            media_type: None,
            body: BodyView::Empty,
        },
        Answer::Forbidden => ReplyView {
            status: 403,
            grants_origin: true,
            media_type: None,
            body: BodyView::Empty,
        },
        Answer::Serve(Served::Inspector) => ReplyView {
            status: 200,
            grants_origin: true,
            media_type: Some("text/html"@),
            body: BodyView::Text(content + INSPECTOR_SCRIPT@),
        },
        Answer::Serve(Served::InspectorChild) => ReplyView {
            status: 200,
            grants_origin: true,
            media_type: Some("text/html"@),
            body: BodyView::Text("<script>window.opener ??= window.parent;</script>"@ + content),
        },
        Answer::Serve(Served::Plain) => ReplyView {
            status: 200,
            grants_origin: true,
            media_type: Some(content_media_type(file)),
            body: if is_textual(content_media_type(file)) {
                BodyView::Text(content)
            } else {
                BodyView::File
            },
        },
    }
}

fn refusal(status: u16, grants_origin: bool) -> (r: Reply)
    ensures
        r@ == (ReplyView { status, grants_origin, media_type: None, body: BodyView::Empty }),
{
    Reply { status, grants_origin, media_type: None, body: Body::Empty }
}

/// Puts the reply to a request together. `content` is the text of the file at
/// `file`; it is left out where the file is not served as text.
pub fn make_reply(a: Answer, file: &str, content: String) -> (r: Reply)
    ensures
        r@ == reply_with(a, file@, content@),
{
    match a {
        Answer::NoPrefix => refusal(500, false),
        Answer::NotFound => refusal(404, true),
        Answer::Forbidden => refusal(403, true),
        Answer::Serve(served) => {
            let (media_type, body) = match served {
                Served::Inspector => (
                    owned("text/html"),
                    Body::Text(inspector_page(&content, INSPECTOR_SCRIPT)),
                ),
                Served::InspectorChild => (
                    owned("text/html"),
                    Body::Text(inspector_child_page(&content)),
                ),
                Served::Plain => {
                    let kind = content_type_of(file);
                    let body = if kind.as_text {
                        Body::Text(content)
                    } else {
                        Body::File
                    };
                    (kind.media_type, body)
                },
            };
            Reply { status: 200, grants_origin: true, media_type: Some(media_type), body }
        },
    }
}

/// A request for a file below the directory whose files are handed out, with the
/// suffix of property inspectors, gets the page of the file and the script behind
/// it.
pub proof fn law_inspector_page_is_served(
    asked: Seq<char>,
    prefix: Seq<char>,
    resolved: Seq<char>,
    content: Seq<char>,
)
    requires
        lies_below(resolved, prefix),
    ensures
        ({
            let (file, served) = served_file(asked + "|riverdeck_property_inspector"@);
            let r = reply_with(answer(served, Some(prefix), Some(resolved)), file, content);
            &&& file == asked
            &&& r.status == 200
            &&& r.media_type == Some("text/html"@)
            &&& r.body == BodyView::Text(content + INSPECTOR_SCRIPT@)
        }),
{
    let suffix = "|riverdeck_property_inspector"@;
    let p = asked + suffix;
    assert(p.subrange(p.len() - suffix.len(), p.len() as int) =~= suffix);
    assert(p.take(p.len() - suffix.len()) =~= asked);
}

/// The page of a child of a property inspector is the file with a line before it that
/// leads to its parent.
pub proof fn law_inspector_child_is_served(
    asked: Seq<char>,
    prefix: Seq<char>,
    resolved: Seq<char>,
    content: Seq<char>,
)
    requires
        lies_below(resolved, prefix),
    ensures
        ({
            let (file, served) = served_file(asked + "|riverdeck_property_inspector_child"@);
            let r = reply_with(answer(served, Some(prefix), Some(resolved)), file, content);
            &&& file == asked
            &&& r.status == 200
            &&& r.media_type == Some("text/html"@)
            &&& r.body == BodyView::Text(
                "<script>window.opener ??= window.parent;</script>"@ + content,
            )
        }),
{
    reveal_strlit("|riverdeck_property_inspector");
    reveal_strlit("|riverdeck_property_inspector_child");
    let p = asked + "|riverdeck_property_inspector_child"@;
    let n = "|riverdeck_property_inspector"@.len();
    let m = "|riverdeck_property_inspector_child"@.len();
    assert(p.subrange(p.len() - m, p.len() as int) =~= "|riverdeck_property_inspector_child"@);
    assert(p.take(p.len() - m) =~= asked);
    assert(!"|riverdeck_property_inspector"@.is_suffix_of(p)) by {
        assert(p.subrange(p.len() - n, p.len() as int)[n - 1] == 'd');
    }
}

/// Any other file is served as it is, with the media type of its extension: as text
/// where that is one of text, and byte by byte otherwise.
pub proof fn law_plain_file_is_served(
    asked: Seq<char>,
    prefix: Seq<char>,
    resolved: Seq<char>,
    content: Seq<char>,
)
    requires
        lies_below(resolved, prefix),
        !asked.contains('|'),
    ensures
        ({
            let (file, served) = served_file(asked);
            let r = reply_with(answer(served, Some(prefix), Some(resolved)), file, content);
            &&& file == asked
            &&& r.status == 200
            &&& r.grants_origin
            &&& r.media_type == Some(content_media_type(asked))
            &&& "text/"@.is_prefix_of(content_media_type(asked)) || content_media_type(asked)
                == "image/svg+xml"@ <==> r.body == BodyView::Text(content)
            &&& !("text/"@.is_prefix_of(content_media_type(asked)) || content_media_type(asked)
                == "image/svg+xml"@) <==> r.body is File
        }),
{
    reveal_strlit("|riverdeck_property_inspector");
    reveal_strlit("|riverdeck_property_inspector_child");
    let n = "|riverdeck_property_inspector"@.len();
    let m = "|riverdeck_property_inspector_child"@.len();
    if "|riverdeck_property_inspector"@.is_suffix_of(asked) {
        assert(asked.subrange(asked.len() - n, asked.len() as int)[0] == asked[asked.len() - n]);
    }
    if "|riverdeck_property_inspector_child"@.is_suffix_of(asked) {
        assert(asked.subrange(asked.len() - m, asked.len() as int)[0] == asked[asked.len() - m]);
    }
}

/// A file is served with the type that its extension stands for.
#[verifier::rlimit(50)]
pub proof fn law_media_types(dir: Seq<char>, stem: Seq<char>)
    requires
        dir.len() > 0,
        dir.last() != '/',
        stem.len() > 0,
        !stem.contains('/'),
    ensures
        content_media_type(dir + seq!['/'] + stem + seq!['.'] + "html"@) == "text/html"@,
        content_media_type(dir + seq!['/'] + stem + seq!['.'] + "js"@) == "text/javascript"@,
        content_media_type(dir + seq!['/'] + stem + seq!['.'] + "css"@) == "text/css"@,
        content_media_type(dir + seq!['/'] + stem + seq!['.'] + "png"@) == "image/png"@,
        content_media_type(dir + seq!['/'] + stem + seq!['.'] + "jpg"@) == "image/jpeg"@,
        content_media_type(dir + seq!['/'] + stem + seq!['.'] + "svg"@) == "image/svg+xml"@,
        content_media_type(dir + seq!['/'] + stem + seq!['.'] + "bin"@)
            == "application/octet-stream"@,
{
    reveal_strlit("htm");
    reveal_strlit("html");
    reveal_strlit("xhtml");
    reveal_strlit("js");
    reveal_strlit("cjs");
    reveal_strlit("mjs");
    reveal_strlit("css");
    reveal_strlit("png");
    reveal_strlit("jpg");
    reveal_strlit("jpeg");
    reveal_strlit("gif");
    reveal_strlit("webp");
    reveal_strlit("svg");
    reveal_strlit("bin");
    reveal_strlit("image/");
    reveal_strlit("image/png");
    path::law_name_and_extension(dir, stem, "html"@);
    path::law_name_and_extension(dir, stem, "js"@);
    path::law_name_and_extension(dir, stem, "css"@);
    path::law_name_and_extension(dir, stem, "png"@);
    path::law_name_and_extension(dir, stem, "jpg"@);
    path::law_name_and_extension(dir, stem, "svg"@);
    path::law_name_and_extension(dir, stem, "bin"@);
    assert("image/"@ + "png"@ =~= "image/png"@);
    assert("js"@.len() == 2 && "css"@.len() == 3 && "html"@.len() == 4);
    assert("css"@[0] != "cjs"@[0] || "css"@[1] != "cjs"@[1]);
    assert("css"@ != "htm"@ && "css"@ != "cjs"@ && "css"@ != "mjs"@) by {
        assert("css"@[0] == 'c' && "htm"@[0] == 'h' && "mjs"@[0] == 'm');
        assert("css"@[1] == 's' && "cjs"@[1] == 'j');
    }
    assert("png"@[0] == 'p' && "jpg"@[0] == 'j' && "svg"@[0] == 's' && "bin"@[0] == 'b');
    assert("gif"@[0] == 'g' && "htm"@[0] == 'h' && "cjs"@[0] == 'c' && "mjs"@[0] == 'm' && "css"@[0]
        == 'c');
}

/// A request that cannot be answered with a file is answered with an empty body: 500
/// without a directory to serve, 404 for a file that is not there, 403 for one
/// outside the directory.
pub proof fn law_refused_requests(
    served: Served,
    prefix: Seq<char>,
    resolved: Seq<char>,
    file: Seq<char>,
    content: Seq<char>,
)
    ensures
        reply_with(answer(served, None, Some(resolved)), file, content).status == 500,
        reply_with(answer(served, None, None), file, content).status == 500,
        reply_with(answer(served, Some(prefix), None), file, content).status == 404,
        !lies_below(resolved, prefix) ==> reply_with(
            answer(served, Some(prefix), Some(resolved)),
            file,
            content,
        ).status == 403,
        !lies_below(resolved, prefix) ==> reply_with(
            answer(served, Some(prefix), Some(resolved)),
            file,
            content,
        ).body is Empty,
        reply_with(answer(served, Some(prefix), None), file, content).body is Empty,
{
}

/// An origin on this machine is granted, as it was given, at every port; an origin
/// that is not granted is never named.
pub proof fn law_local_origins_are_granted(port: Seq<char>, origin: Seq<char>)
    ensures
        granted(Some("http://localhost:"@ + port)) == Some("http://localhost:"@ + port),
        granted(Some("http://127.0.0.1:"@ + port)) == Some("http://127.0.0.1:"@ + port),
        granted(Some("https://localhost:"@ + port)) == Some("https://localhost:"@ + port),
        granted(Some("https://127.0.0.1:"@ + port)) == Some("https://127.0.0.1:"@ + port),
        granted(None) is None,
        granted(Some(origin)) matches Some(o) ==> o == origin,
{
    lemma_local_origin("http://localhost:"@, port);
    lemma_local_origin("http://127.0.0.1:"@, port);
    lemma_local_origin("https://localhost:"@, port);
    lemma_local_origin("https://127.0.0.1:"@, port);
}

proof fn lemma_local_origin(base: Seq<char>, port: Seq<char>)
    requires
        base == "http://localhost:"@ || base == "http://127.0.0.1:"@ || base
            == "https://localhost:"@ || base == "https://127.0.0.1:"@,
    ensures
        base.is_prefix_of(text::trimmed(base + port)),
{
    reveal_strlit("http://localhost:");
    reveal_strlit("http://127.0.0.1:");
    reveal_strlit("https://localhost:");
    reveal_strlit("https://127.0.0.1:");
    assert(base[0] == 'h');
    assert(base.last() == ':');
    text::lemma_trimmed_behind(base, port);
    let t = text::trimmed(base + port);
    assert(t.subrange(0, base.len() as int) =~= base);
}

/// A request asks for the path before its query, and slashes before its first one do
/// not count.
pub proof fn law_asked_path(p: Seq<char>, query: Seq<char>)
    requires
        p.len() > 0,
        p[0] != '/',
        !p.contains('?'),
    ensures
        asked_path(seq!['/'] + p + seq!['?'] + query) == seq!['/'] + p,
        asked_path(seq!['/'] + p) == seq!['/'] + p,
        asked_path(seq!['/'] + (seq!['/'] + p)) == seq!['/'] + p,
{
    let q = seq!['/'] + p;
    let u = q + seq!['?'] + query;
    assert(u[0] == '/' && u[1] == p[0]);
    assert(single_slash(u) == u);
    assert(u[q.len() as int] == '?');
    assert forall|j: int| 0 <= j < q.len() implies #[trigger] u[j] != '?' by {
        if j > 0 {
            assert(u[j] == p[j - 1]);
        }
    }
    text::lemma_index_of_char_is(u, '?', q.len() as int);
    assert(u.take(q.len() as int) =~= q);
    assert(q[0] == '/' && q[1] == p[0]);
    assert(single_slash(q) == q);
    assert forall|j: int| 0 <= j < q.len() implies #[trigger] q[j] != '?' by {
        if j > 0 {
            assert(q[j] == p[j - 1]);
        }
    }
    let d = seq!['/'] + q;
    assert(d[0] == '/' && d[1] == '/');
    assert(d.drop_first() =~= q);
    assert(single_slash(d) == single_slash(q));
}

} // verus!
