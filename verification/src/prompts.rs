//! The texts of the server's guided prompts: exploring a topic and summarizing
//! a project folder.
use vstd::prelude::*;

use crate::text::owned;

verus! {

/// The arguments of the topic prompt: the topic, and a folder to stay in.
#[derive(Debug)]
pub struct ExploreTopicArgs {
    pub topic: String,
    pub folder: Option<String>,
}

/// The arguments of the project prompt: the project's folder.
#[derive(Debug)]
pub struct SummarizeProjectArgs {
    pub folder: String,
}

/// ` within the folder "<f>"` when a folder is given, nothing otherwise.
pub open spec fn folder_context(folder: Option<Seq<char>>) -> Seq<char> {
    match folder {
        Some(f) => " within the folder \""@ + f + "\""@,
        None => Seq::empty(),
    }
}

/// The request of the topic prompt.
pub open spec fn explore_text(topic: Seq<char>, folder: Option<Seq<char>>) -> Seq<char> {
    "Explore my vault for everything related to \""@ + topic + "\""@ + folder_context(folder)
        + ". Use tarn_search_notes to find relevant notes, then read the top results via the tarn://note/{path} resource. Synthesize a summary of what I know about this topic, what's well-documented, and where there are gaps."@
}

/// The request of the topic prompt for `args`.
pub fn explore_topic_text(args: &ExploreTopicArgs) -> (r: String)
    ensures
        r@ == explore_text(args.topic@, match args.folder {
            Some(f) => Some(f@),
            None => None,
        }),
{
    let mut s = owned("Explore my vault for everything related to \"");
    s.append(args.topic.as_str());
    s.append("\"");
    match &args.folder {
        Some(f) => {
            s.append(" within the folder \"");
            s.append(f.as_str());
            s.append("\"");
        },
        None => {},
    }
    s.append(
        ". Use tarn_search_notes to find relevant notes, then read the top results via the tarn://note/{path} resource. Synthesize a summary of what I know about this topic, what's well-documented, and where there are gaps.",
    );
    s
}

/// The description of the topic prompt: `Explore topic: <topic>`.
pub fn explore_topic_description(args: &ExploreTopicArgs) -> (r: String)
    ensures
        r@ == "Explore topic: "@ + args.topic@,
{
    let mut s = owned("Explore topic: ");
    s.append(args.topic.as_str());
    s
}

/// The request of the project prompt.
pub open spec fn summarize_text(folder: Seq<char>) -> Seq<char> {
    "Summarize the project in \""@ + folder + "\". Use tarn_search_notes(query=\"\", folder=\""@ + folder
        + "\") to find all notes, then read each via the tarn://note/{path} resource. Produce a status report: key documents, open topics, tag distribution, and an overview of the project structure."@
}

/// The request of the project prompt for `args`.
pub fn summarize_project_text(args: &SummarizeProjectArgs) -> (r: String)
    ensures
        r@ == summarize_text(args.folder@),
{
    let mut s = owned("Summarize the project in \"");
    s.append(args.folder.as_str());
    s.append("\". Use tarn_search_notes(query=\"\", folder=\"");
    s.append(args.folder.as_str());
    s.append(
        "\") to find all notes, then read each via the tarn://note/{path} resource. Produce a status report: key documents, open topics, tag distribution, and an overview of the project structure.",
    );
    s
}

/// The resources the project prompt links: the folder's info and its tags.
pub fn summarize_project_resources(args: &SummarizeProjectArgs) -> (r: (String, String))
    ensures
        r.0@ == "tarn://vault/info/"@ + args.folder@,
        r.1@ == "tarn://vault/tags/"@ + args.folder@,
{
    let mut info = owned("tarn://vault/info/");
    info.append(args.folder.as_str());
    let mut tags = owned("tarn://vault/tags/");
    tags.append(args.folder.as_str());
    (info, tags)
}

/// The description of the project prompt: `Summarize project: <folder>`.
pub fn summarize_project_description(args: &SummarizeProjectArgs) -> (r: String)
    ensures
        r@ == "Summarize project: "@ + args.folder@,
{
    let mut s = owned("Summarize project: ");
    s.append(args.folder.as_str());
    s
}

} // verus!
