//! The message a notification carries, and the form fields it is sent with.

use vstd::prelude::*;
use vstd::string::*;
use crate::release::{Release, ReleaseModel};

verus! {

/// The most characters of a release body that a message carries.
pub const BODY_MAX: usize = 3900;

/// A release body cut to the maximum length a message carries.
pub open spec fn truncated_body(body: Seq<char>) -> Seq<char> {
    if body.len() <= BODY_MAX {
        body
    } else {
        body.subrange(0, BODY_MAX as int)
    }
}

/// The glyph that opens a message: one for important releases, another for
/// ordinary ones.
pub open spec fn glyph(important: bool) -> Seq<char> {
    if important {
        "🐅"@
    } else {
        "🦦"@
    }
}

/// The whole message text: the glyph, the release name as a hyperlink to
/// its page, the repository, the publication timestamp, and the truncated
/// body as a preformatted code block.
pub open spec fn message_view(repo: Seq<char>, rel: ReleaseModel, important: bool) -> Seq<char> {
    glyph(important) + "New release <a href=\""@ + rel.html_url + "\">"@ + rel.name
        + "</a> in <b>"@ + repo + "</b> at "@ + rel.published_at
        + "\n\n<pre><code class=\"language-markdown\">"@ + truncated_body(rel.body)
        + "</code></pre>"@
}

/// Build the message text for a release of `repo`.
pub fn build_message(repo: &String, rel: &Release, important: bool) -> (text: String)
    ensures
        text@ == message_view(repo@, rel@, important),
{
    let mut text = if important {
        "🐅".to_owned()
    } else {
        "🦦".to_owned()
    };
    text.append("New release <a href=\"");
    text.append(rel.html_url.as_str());
    text.append("\">");
    text.append(rel.name.as_str());
    text.append("</a> in <b>");
    text.append(repo.as_str());
    text.append("</b> at ");
    text.append(rel.published_at.as_str());
    text.append("\n\n<pre><code class=\"language-markdown\">");
    let body = rel.body.as_str();
    if body.unicode_len() <= BODY_MAX {
        text.append(body);
    } else {
        text.append(body.substring_char(0, BODY_MAX));
    }
    text.append("</code></pre>");
    proof {
        assert(text@ =~= message_view(repo@, rel@, important));
    }
    text
}

/// The string the `disable_notification` form field carries: notifications
/// are delivered silently unless the release is important.
pub open spec fn disable_flag(important: bool) -> Seq<char> {
    if important {
        "false"@
    } else {
        "true"@
    }
}

/// The four form fields of a send-message request: the destination chat,
/// the message text, the rich-text mode, and the silent-delivery flag.
pub fn notification_params(chat_id: &String, text: String, important: bool) -> (params: Vec<
    (String, String),
>)
    ensures
        params@.len() == 4,
        params@[0].0@ == "chat_id"@ && params@[0].1@ == chat_id@,
        params@[1].0@ == "text"@ && params@[1].1@ == text@,
        params@[2].0@ == "parse_mode"@ && params@[2].1@ == "HTML"@,
        params@[3].0@ == "disable_notification"@ && params@[3].1@ == disable_flag(important),
{
    let mut params: Vec<(String, String)> = Vec::new();
    params.push(("chat_id".to_owned(), chat_id.clone()));
    params.push(("text".to_owned(), text));
    params.push(("parse_mode".to_owned(), "HTML".to_owned()));
    let flag = if important {
        "false".to_owned()
    } else {
        "true".to_owned()
    };
    params.push(("disable_notification".to_owned(), flag));
    params
}

/// The send-message endpoint for a bot credential.
pub fn send_message_url(token: &String) -> (url: String)
    ensures
        url@ == "https://api.telegram.org/bot"@ + token@ + "/sendMessage"@,
{
    let mut url = "https://api.telegram.org/bot".to_owned();
    url.append(token.as_str());
    url.append("/sendMessage");
    proof {
        assert(url@ =~= "https://api.telegram.org/bot"@ + token@ + "/sendMessage"@);
    }
    url
}

} // verus!
