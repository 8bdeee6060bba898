use tarn::prompts::{
    explore_topic_description, explore_topic_text, summarize_project_description, summarize_project_resources,
    summarize_project_text, ExploreTopicArgs, SummarizeProjectArgs,
};

#[test]
fn explore_topic_with_and_without_folder() {
    let args = ExploreTopicArgs { topic: "rust".to_string(), folder: None };
    let t = explore_topic_text(&args);
    assert!(t.starts_with("Explore my vault for everything related to \"rust\". Use tarn_search_notes"));
    let args = ExploreTopicArgs { topic: "rust".to_string(), folder: Some("dev".to_string()) };
    let t = explore_topic_text(&args);
    assert!(t.starts_with("Explore my vault for everything related to \"rust\" within the folder \"dev\". Use"));
    assert!(t.contains("tarn://note/{path}"));
    assert_eq!(explore_topic_description(&args), "Explore topic: rust");
}

#[test]
fn summarize_project_texts() {
    let args = SummarizeProjectArgs { folder: "proj".to_string() };
    let t = summarize_project_text(&args);
    assert!(t.starts_with("Summarize the project in \"proj\". Use tarn_search_notes(query=\"\", folder=\"proj\") to find"));
    let (info, tags) = summarize_project_resources(&args);
    assert_eq!(info, "tarn://vault/info/proj");
    assert_eq!(tags, "tarn://vault/tags/proj");
    assert_eq!(summarize_project_description(&args), "Summarize project: proj");
}
