use article_reader::config::alias_to_voice;
use article_reader::parser::{decode_text, parse_file, BlockKind, ParsedArticle};
use article_reader::preprocess::{preprocess, preprocess_ssml};
use article_reader::splitter::{sanitize_filename, split_by_sections};
use article_reader::tts::{parse_speed, resolve_voice};

const SIMPLE_TXT: &str = "春天来了，万物复苏。\n\n小草从地里探出头来，\n嫩嫩的，绿绿的。\n\n\n\n\n春天像刚落地的娃娃，从头到脚都是新的。\n\n   \n\n";

const MIXED_MD: &str = "# Python 入门指南\n\nPython 是一门**简洁**而强大的语言。\n\n## 安装\n\n请访问 [Python 官网](https://python.org) 下载安装包。\n\n```python\nprint(\"hello\")\n```\n\n## 数据类型\n\n| 类型 | 示例 |\n| --- | --- |\n| int | 1 |\n| str | \"a\" |\n\n> 提示：多练习。\n\n- 列表\n- 字典\n";

const ARTICLE_HTML: &str = "<!DOCTYPE html>\n<html><head><title>人工智能的未来</title><script>console.log('x');</script></head>\n<body>\n<nav><a href=\"/\">首页</a><a href=\"/about\">关于</a></nav>\n<article>\n<h2>引言</h2>\n<p>人工智能正在改变   世界。</p>\n<pre><code>print(1)</code></pre>\n<table><tr><th>年份</th><th>事件</th></tr><tr><td>1956</td><td>达特茅斯会议</td></tr></table>\n<script>console.log('inside');</script>\n<ul><li>机器学习</li><li>深度学习</li></ul>\n</article>\n<footer>版权所有</footer>\n</body></html>";

const LONG_MD: &str = "# 长文章\n\n开头的一段介绍。\n\n## 第一章\n\n第一章的内容，讲述了故事的开端。\n\n## 第二章\n\n第二章的内容，故事继续发展。\n\n### 小节\n\n小节的内容。\n\n## 第三章\n\n第三章是结尾。\n";

fn parse_sample(name: &str, text: &str) -> ParsedArticle {
    let raw = decode_text(text.as_bytes());
    parse_file(Some(name), &raw).unwrap()
}

#[test]
fn parses_simple_txt() {
    let article = parse_sample("simple.txt", SIMPLE_TXT);
    assert!(!article.blocks.is_empty());
    assert!(article.blocks.iter().all(|b| b.kind == BlockKind::Text));
    let text = preprocess(&article);
    assert!(text.contains("春天"));
    assert!(!text.contains("\n\n\n"));
}

#[test]
fn parses_mixed_markdown_and_skips_special_blocks() {
    let article = parse_sample("mixed.md", MIXED_MD);
    assert_eq!(article.title, "Python 入门指南");

    let has_code = article.blocks.iter().any(|b| b.kind == BlockKind::Code);
    let has_table = article.blocks.iter().any(|b| b.kind == BlockKind::Table);
    assert!(has_code, "应识别到代码块");
    assert!(has_table, "应识别到表格");

    let text = preprocess(&article);
    assert!(text.contains("（这里有一段代码，已跳过）"));
    assert!(text.contains("（这里有一个表格，已跳过）"));
    assert!(!text.contains("```"));
    assert!(!text.contains("**"));
    assert!(text.contains("Python 官网"));
    assert!(!text.contains("(https://python.org)"));
}

#[test]
fn parses_html_strips_nav_and_script() {
    let article = parse_sample("article.html", ARTICLE_HTML);
    assert_eq!(article.title, "人工智能的未来");

    let text = preprocess(&article);
    assert!(text.contains("人工智能"));
    assert!(!text.contains("console.log"));
    assert!(!text.contains("首页"), "导航项应被剥离");
    assert!(text.contains("（这里有一段代码，已跳过）"));
    assert!(text.contains("（这里有一个表格，已跳过）"));
}

#[test]
fn splits_long_article_by_sections() {
    let article = parse_sample("long_article.md", LONG_MD);
    let sections = split_by_sections(&article);
    assert!(sections.len() >= 2, "长文章应拆出多个章节");
    for (title, text) in &sections {
        assert!(!title.is_empty());
        assert!(!text.trim().is_empty());
    }
}

#[test]
fn sanitize_filename_keeps_chinese() {
    let s = sanitize_filename("唐诗：李白与杜甫!", 20);
    assert!(s.contains("唐诗"));
    assert!(!s.contains("!"));
    assert!(!s.contains("："));

    assert_eq!(sanitize_filename("!@#$%", 10), "untitled");
}

#[test]
fn voice_alias_resolution() {
    assert_eq!(alias_to_voice("xiaoxiao").unwrap(), "zh-CN-XiaoxiaoNeural");
    assert_eq!(resolve_voice("xiaoxiao"), "zh-CN-XiaoxiaoNeural");
    assert_eq!(resolve_voice("yunxi"), "zh-CN-YunxiNeural");
    assert_eq!(resolve_voice("zh-CN-Custom"), "zh-CN-Custom");
}

#[test]
fn parses_speed_strings() {
    assert_eq!(parse_speed("+0%").unwrap(), 0);
    assert_eq!(parse_speed("+20%").unwrap(), 20);
    assert_eq!(parse_speed("-10%").unwrap(), -10);
    assert_eq!(parse_speed("5").unwrap(), 5);
    assert!(parse_speed("foo").is_err());
}

#[test]
fn ssml_wraps_blocks_with_breaks() {
    let article = parse_sample("mixed.md", MIXED_MD);
    let ssml = preprocess_ssml(&article);
    assert!(ssml.starts_with("<speak version=\"1.0\""));
    assert!(ssml.ends_with("</speak>"));
    assert!(ssml.contains("<break time=\"800ms\"/>"));
}
