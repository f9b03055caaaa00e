use article_reader::cli::{count_skipped_blocks, is_supported_format, section_file_name, speech_text, supported_formats};
use article_reader::config::{alias_to_voice, voice_aliases, voice_to_alias, DEFAULT_VOICE};
use article_reader::parser::{
    decode_text, html, markdown, parse_file, text, BlockKind, ContentBlock, ParseError,
    ParsedArticle, SourceFormat,
};
use article_reader::preprocess::{escape_ssml_chars, preprocess, preprocess_ssml, unescape_entities};
use article_reader::splitter::{sanitize_filename, split_by_sections, split_by_sections_ssml};
use article_reader::tts::{
    hard_split, make_config, parse_speed, plan_speech, resolve_voice, retry_delay_secs,
    split_long_paragraph, split_text, voices_for_language,
};
use article_reader::ui::{display_width, panel_layout, summary_lines, voice_rows, VoiceInfo};

fn article(blocks: Vec<ContentBlock>) -> ParsedArticle {
    ParsedArticle { title: "t".to_string(), blocks, source_format: SourceFormat::Text }
}

fn one_text(s: &str) -> ParsedArticle {
    article(vec![ContentBlock::text(s.to_string())])
}

fn kinds(a: &ParsedArticle) -> Vec<(BlockKind, String, u8)> {
    a.blocks.iter().map(|b| (b.kind, b.content.clone(), b.level)).collect()
}

#[test]
fn text_parser_headings_and_paragraphs() {
    let a = text::parse("# 标题\n\n正文\n\n### 三级\n\n#\n\n  \n\n## ", "默认".to_string());
    assert_eq!(a.title, "标题");
    assert_eq!(a.source_format, SourceFormat::Text);
    assert_eq!(
        kinds(&a),
        vec![
            (BlockKind::Heading, "标题".to_string(), 1),
            (BlockKind::Text, "正文".to_string(), 0),
            (BlockKind::Heading, "三级".to_string(), 3),
            (BlockKind::Text, "#".to_string(), 0),
            (BlockKind::Text, "##".to_string(), 0),
        ]
    );
    let b = text::parse("只有正文", "默认".to_string());
    assert_eq!(b.title, "默认");
    assert!(text::heading_levels_fit_in("# a\n\nb"));
    assert!(!text::heading_levels_fit_in(&"#".repeat(256)));
}

#[test]
fn markdown_image_in_paragraph_and_table() {
    let a = markdown::parse("![图片说明](a.png)\n\n| a | b |\n|---|---|\n| 1 | 2 |\n", "d".to_string());
    assert_eq!(a.title, "d");
    assert_eq!(
        kinds(&a),
        vec![
            (BlockKind::Text, "图片说明".to_string(), 0),
            (BlockKind::Table, "a | b\n1 | 2".to_string(), 0),
        ]
    );
}

#[test]
fn markdown_headings_code_and_lists() {
    let a = markdown::parse("intro\n\n# 一\n\n## 二\n\n```\ncode\n```\n\n- x\n- y\n", "d".to_string());
    assert_eq!(a.title, "一");
    assert_eq!(a.source_format, SourceFormat::Markdown);
    assert_eq!(
        kinds(&a),
        vec![
            (BlockKind::Text, "intro".to_string(), 0),
            (BlockKind::Heading, "一".to_string(), 1),
            (BlockKind::Heading, "二".to_string(), 2),
            (BlockKind::Code, "code".to_string(), 0),
            (BlockKind::Text, "x".to_string(), 0),
            (BlockKind::Text, "y".to_string(), 0),
        ]
    );
}

#[test]
fn html_elements_become_blocks() {
    let raw = "<html><body><main><h1>主标题</h1><img alt=\"风景\"><ul><li> a  b </li><li></li></ul><header>x</header><section>文</section><b>粗<i>体</i> 文</b></main></body></html>";
    let a = html::parse(raw, "d".to_string());
    assert_eq!(a.title, "主标题");
    assert_eq!(a.source_format, SourceFormat::Html);
    assert_eq!(
        kinds(&a),
        vec![
            (BlockKind::Heading, "主标题".to_string(), 1),
            (BlockKind::Image, "风景".to_string(), 0),
            (BlockKind::Text, "a b".to_string(), 0),
            (BlockKind::Text, "文".to_string(), 0),
            (BlockKind::Text, "粗".to_string(), 0),
            (BlockKind::Text, "体".to_string(), 0),
            (BlockKind::Text, "文".to_string(), 0),
        ]
    );
}

#[test]
fn html_title_tag_and_default() {
    let a = html::parse("<html><head><title>  标题  </title></head><body><p>x</p></body></html>", "d".to_string());
    assert_eq!(a.title, "标题");
    let b = html::parse("<p>x</p>", "默认".to_string());
    assert_eq!(b.title, "默认");
    assert_eq!(kinds(&b), vec![(BlockKind::Text, "x".to_string(), 0)]);
}

#[test]
fn html_reads_article_of_body_replaced_by_frameset() {
    // The frameset detaches the body; the article inside it is still the
    // first one the document's selector gives, and it is empty.
    let a = html::parse("<title>T</title><article></article><frameset></frameset>", "d".to_string());
    assert_eq!(a.title, "T");
    assert!(a.blocks.is_empty());
}

#[test]
fn preprocess_decodes_entities_in_order() {
    assert_eq!(preprocess(&one_text("A &amp;lt; B &quot;c&quot;&nbsp;d")), "A < B \"c\" d");
}

#[test]
fn preprocess_strips_markdown_remnants() {
    assert_eq!(preprocess(&one_text("a **b** c _d_")), "a b c d");
    assert_eq!(preprocess(&one_text("这是**重点**")), "这是**重点");
    assert_eq!(preprocess(&one_text("> 引用\n>第二行")), "引用\n第二行");
    assert_eq!(preprocess(&one_text("见[官网](http://x)。")), "见官网。");
    assert_eq!(preprocess(&one_text("![图](a.png)")), "!图");
    assert_eq!(preprocess(&one_text("前![](a.png)后")), "前后");
    assert_eq!(preprocess(&one_text("a\n\n\n\nb")), "a\n\nb");
}

#[test]
fn preprocess_blocks_and_notes() {
    let a = article(vec![
        ContentBlock::heading("  标题 ".to_string(), 1),
        ContentBlock::text("   ".to_string()),
        ContentBlock::other(BlockKind::Code, "x = 1".to_string()),
        ContentBlock::other(BlockKind::Math, "E=mc^2".to_string()),
        ContentBlock::other(BlockKind::Image, "猫".to_string()),
        ContentBlock::other(BlockKind::Image, " ".to_string()),
    ]);
    assert_eq!(
        preprocess(&a),
        "标题\n\n（这里有一段代码，已跳过）\n\n（这里有一个数学公式，已跳过）\n\n（图片：猫）"
    );
    assert_eq!(preprocess(&article(vec![])), "");
    assert_eq!(count_skipped_blocks(&a.blocks), 2);
}

#[test]
fn ssml_escapes_and_pauses() {
    let a = article(vec![
        ContentBlock::heading("A<B".to_string(), 1),
        ContentBlock::text("x & 'y'".to_string()),
        ContentBlock::other(BlockKind::Table, "t".to_string()),
    ]);
    let expected = "<speak version=\"1.0\" xmlns=\"http://www.w3.org/2001/10/synthesis\" xml:lang=\"zh-CN\">\n<break time=\"800ms\"/>\nA&lt;B\n<break time=\"500ms\"/>\nx &amp; &apos;y&apos;\n<break time=\"300ms\"/>\n（这里有一个表格，已跳过）\n<break time=\"300ms\"/>\n</speak>";
    assert_eq!(preprocess_ssml(&a), expected);
    assert_eq!(
        preprocess_ssml(&article(vec![])),
        "<speak version=\"1.0\" xmlns=\"http://www.w3.org/2001/10/synthesis\" xml:lang=\"zh-CN\"></speak>"
    );
}

#[test]
fn sections_without_headings_use_article_title() {
    let a = article(vec![ContentBlock::text("正文".to_string())]);
    assert_eq!(split_by_sections(&a), vec![("t".to_string(), "正文".to_string())]);
    assert_eq!(split_by_sections(&article(vec![])), vec![]);
}

#[test]
fn sections_split_at_top_level_headings() {
    let a = article(vec![
        ContentBlock::text("前言".to_string()),
        ContentBlock::heading(" 第一章 ".to_string(), 1),
        ContentBlock::text("甲".to_string()),
        ContentBlock::heading("小节".to_string(), 3),
        ContentBlock::heading("第二章".to_string(), 2),
        ContentBlock::text("   ".to_string()),
    ]);
    assert_eq!(
        split_by_sections(&a),
        vec![
            ("开头".to_string(), "前言".to_string()),
            ("第一章".to_string(), "第一章\n\n甲\n\n小节".to_string()),
            ("第二章".to_string(), "第二章".to_string()),
        ]
    );
}

#[test]
fn sanitize_filename_truncates_and_filters() {
    assert_eq!(sanitize_filename("Hello World 你好-1_2", 5), "Hello");
    assert_eq!(sanitize_filename("a b-c_d", 10), "ab-c_d");
    assert_eq!(sanitize_filename("", 10), "untitled");
    assert_eq!(sanitize_filename("标题", 0), "untitled");
}

#[test]
fn chunking_by_paragraph_sentence_and_size() {
    assert_eq!(split_text("短文", 4000), vec!["短文"]);
    assert_eq!(split_text("aaaa\n\nbbbb\n\ncc", 6), vec!["aaaa", "bbbb", "cc"]);
    assert_eq!(split_text("aaaa\n\nbbbb\n\ncc", 10), vec!["aaaa\n\nbbbb", "cc"]);
    assert_eq!(
        split_text("一二三。四五六。七八九。", 2),
        vec!["一二", "三。", "四五", "六。", "七八", "九。"]
    );
    assert_eq!(split_long_paragraph("ab.cd.", 3), vec!["ab.", "cd."]);
    assert_eq!(split_long_paragraph("ab.cd.", 6), vec!["ab.cd."]);
    assert_eq!(split_long_paragraph("ab.cdef", 3), vec!["ab.", "cde", "f"]);
    assert_eq!(hard_split("abcdefg", 3), vec!["abc", "def", "g"]);
    assert_eq!(hard_split("", 3), Vec::<String>::new());
}

#[test]
fn every_chunk_fits() {
    let text = "这是一句话。".repeat(2000) + "\n\n" + &"短段落。\n\n".repeat(10);
    let chunks = split_text(&text, 4000);
    assert!(chunks.len() > 1);
    for c in &chunks {
        let n = c.chars().count();
        assert!(n > 0 && n <= 4000);
    }
    let long = "没有句号的很长一段".repeat(100);
    let pieces = split_long_paragraph(&long, 7);
    assert_eq!(pieces.concat(), long);
    assert!(pieces.iter().all(|p| p.chars().count() <= 7 && !p.is_empty()));
}

#[test]
fn speed_argument_forms() {
    assert_eq!(parse_speed(" +15 %% ").unwrap(), 15);
    assert_eq!(parse_speed("++5").unwrap(), 5);
    assert_eq!(parse_speed("+-3").unwrap(), -3);
    assert_eq!(parse_speed("-2147483648%").unwrap(), i32::MIN);
    assert_eq!(parse_speed("2147483647").unwrap(), i32::MAX);
    assert!(parse_speed("2147483648").is_err());
    assert!(parse_speed("").is_err());
    assert!(parse_speed("%").is_err());
    assert!(parse_speed("-").is_err());
    assert_eq!(parse_speed("1x").unwrap_err().input, "1x");
}

#[test]
fn synthesis_settings_and_plan() {
    let c = make_config("zh-CN-YunxiNeural", 20);
    assert_eq!(c.voice_name, "zh-CN-YunxiNeural");
    assert_eq!(c.audio_format, "audio-24khz-48kbitrate-mono-mp3");
    assert_eq!((c.pitch, c.rate, c.volume), (0, 20, 0));

    let p = plan_speech("  \n ", "");
    assert!(p.chunks.is_empty());
    assert_eq!(p.voice, DEFAULT_VOICE);
    let q = plan_speech(" 你好 ", "yunxi");
    assert_eq!(q.chunks, vec!["你好"]);
    assert_eq!(q.voice, "yunxi");
}

#[test]
fn retry_schedule_doubles() {
    assert_eq!(retry_delay_secs(0, 3), Some(1));
    assert_eq!(retry_delay_secs(1, 3), Some(2));
    assert_eq!(retry_delay_secs(2, 3), None);
    assert_eq!(retry_delay_secs(5, 10), Some(32));
    assert_eq!(retry_delay_secs(0, 0), None);
}

#[test]
fn alias_and_voice_round_trip() {
    for (alias, voice) in voice_aliases() {
        assert_eq!(alias_to_voice(alias), Some(voice));
        assert_eq!(voice_to_alias(voice), Some(alias));
        assert_eq!(resolve_voice(&resolve_voice(alias)), resolve_voice(alias));
    }
    assert_eq!(alias_to_voice("nobody"), None);
    assert_eq!(voice_to_alias("xiaoxiao"), None);
}

#[test]
fn file_names_and_formats() {
    assert_eq!(section_file_name("book", 0, "序"), "book-01-序.mp3");
    assert_eq!(section_file_name("book", 9, "x"), "book-10-x.mp3");
    assert_eq!(section_file_name("book", 99, "x"), "book-100-x.mp3");
    assert_eq!(supported_formats(), vec![".md", ".txt", ".html", ".htm"]);
    assert!(is_supported_format(".htm"));
    assert!(!is_supported_format(".MD"));
    assert!(!is_supported_format(""));
}

#[test]
fn parse_file_dispatches_on_extension() {
    let a = parse_file(Some("A.MD"), "# T\n\nx").unwrap();
    assert_eq!(a.source_format, SourceFormat::Markdown);
    assert_eq!(a.title, "T");
    let b = parse_file(Some("notes.TXT"), "x").unwrap();
    assert_eq!(b.source_format, SourceFormat::Text);
    assert_eq!(b.title, "notes");
    let c = parse_file(Some("page.htm"), "<p>x</p>").unwrap();
    assert_eq!(c.source_format, SourceFormat::Html);
    assert_eq!(c.title, "page");
    match parse_file(Some("x.pdf"), "") {
        Err(ParseError::UnsupportedFormat(k)) => assert_eq!(k, ".pdf"),
        Ok(_) => panic!("accepted"),
    }
    match parse_file(Some(".md"), "") {
        Err(ParseError::UnsupportedFormat(k)) => assert_eq!(k, ""),
        Ok(_) => panic!("accepted"),
    }
    assert!(parse_file(None, "x").is_err());
}

#[test]
fn decoding_honours_byte_order_marks() {
    assert_eq!(decode_text(b""), "");
    assert_eq!(decode_text(b"\xEF\xBB\xBFabc"), "abc");
    assert_eq!(decode_text(b"\xFF\xFEa\x00"), "a");
    assert_eq!(decode_text("春天".as_bytes()), "春天");
}

#[test]
fn terminal_layout() {
    assert_eq!(display_width("ab中文"), 6);
    let l = panel_layout("T", &vec!["abc".to_string()]);
    assert_eq!((l.width, l.left, l.right), (40, 18, 19));
    assert_eq!(l.pads, vec![37]);
    let wide = "中".repeat(30);
    let m = panel_layout("标题", &vec![wide.clone(), "x".to_string()]);
    assert_eq!(m.width, 60);
    assert_eq!(m.pads, vec![0, 59]);
    let lines = summary_lines("in.md", "out.mp3", "zh-CN-YunxiNeural", "+0%", "1.0 KB");
    assert_eq!(
        lines,
        vec![
            "源文件:   in.md",
            "输出文件: out.mp3",
            "声音:     yunxi (Yunxi)",
            "语速:     +0%",
            "文件大小: 1.0 KB",
        ]
    );
}

fn voice(short: &str, gender: &str, locale: &str) -> VoiceInfo {
    VoiceInfo {
        name: format!("Microsoft Server Speech Text to Speech Voice ({short})"),
        short_name: Some(short.to_string()),
        gender: Some(gender.to_string()),
        locale: Some(locale.to_string()),
    }
}

#[test]
fn voice_table_rows_and_language_filter() {
    let voices = vec![
        voice("zh-CN-CustomNeural", "Female", "zh-CN"),
        voice("zh-CN-YunxiNeural", "Male", "zh-CN"),
        voice("zh-CN-XiaoxiaoNeural", "Female", "zh-CN"),
        voice("en-US-AriaNeural", "Female", "en-US"),
    ];
    let rows = voice_rows(&voices);
    let s = |a: &str, b: &str, c: &str| (a.to_string(), b.to_string(), c.to_string());
    assert_eq!(
        rows,
        vec![
            s("xiaoxiao", "Xiaoxiao", "女"),
            s("yunxi", "Yunxi", "男"),
            s("-", "Custom", "女"),
            s("-", "en-US-Aria", "女"),
        ]
    );
    let zh = voices_for_language(voices, "zh-CN");
    assert_eq!(zh.len(), 3);
    assert!(zh.iter().all(|v| v.locale.as_deref() == Some("zh-CN")));
}

#[test]
fn zero_chunk_size_on_texts_without_words() {
    assert_eq!(split_text("", 0), vec!["".to_string()]);
    assert!(split_text(" \n\n \t", 0).is_empty());
    assert!(split_long_paragraph("", 0).is_empty());
}

#[test]
fn retry_delay_past_the_last_try_for_any_attempt() {
    assert_eq!(retry_delay_secs(70, 10), None);
    assert_eq!(retry_delay_secs(2, 3), None);
    assert_eq!(retry_delay_secs(1, 3), Some(2));
}

#[test]
fn blank_article_is_refused_for_single_file() {
    assert_eq!(speech_text(&article(vec![]), false), None);
    assert_eq!(speech_text(&one_text("   "), false), None);
    assert_eq!(speech_text(&one_text(" 你好 "), false), Some("你好".to_string()));
    let ssml = speech_text(&article(vec![]), true).unwrap();
    assert!(ssml.starts_with("<speak") && ssml.ends_with("</speak>"));
}

#[test]
fn hard_split_piece_count_and_sizes() {
    let pieces = hard_split("abcdefghij", 4);
    assert_eq!(pieces, vec!["abcd".to_string(), "efgh".to_string(), "ij".to_string()]);
    assert_eq!(pieces.len(), (10 + 4 - 1) / 4);
    assert_eq!(pieces.concat(), "abcdefghij");
    assert!(hard_split("", 4).is_empty());
}

#[test]
fn speed_reads_back_its_formatted_form() {
    for n in [0i32, 7, -10, 100, i32::MAX, i32::MIN] {
        assert_eq!(parse_speed(&format!("{n}%")).unwrap(), n);
        assert_eq!(parse_speed(&format!("{n}")).unwrap(), n);
        if n >= 0 {
            assert_eq!(parse_speed(&format!("+{n}%")).unwrap(), n);
        }
    }
}

#[test]
fn ssml_pauses_once_around_each_heading() {
    let a = article(vec![
        ContentBlock::heading("一".to_string(), 1),
        ContentBlock::text("正文".to_string()),
        ContentBlock::heading("二".to_string(), 2),
        ContentBlock::other(BlockKind::Code, "x".to_string()),
    ]);
    let s = preprocess_ssml(&a);
    assert_eq!(s.matches("<break time=\"800ms\"/>").count(), 2);
    assert_eq!(s.matches("<break time=\"500ms\"/>").count(), 2);
}

#[test]
fn emphasis_stripping_deletes_only_markers() {
    let s = preprocess(&one_text("看 **这里** 和_强调_，a*b 不变"));
    assert_eq!(s, "看 这里 和_强调，a*b 不变");
    let visible = |t: &str| t.chars().filter(|c| *c != '*' && *c != '_').collect::<String>();
    assert_eq!(visible(&s), visible("看 **这里** 和_强调_，a*b 不变"));
}

#[test]
fn chunking_keeps_every_visible_character() {
    let text = "第一段。第二句！\n\n  第二段很长很长。还有一句？\n\n\n第三段";
    let chunks = split_text(text, 8);
    let visible = |s: &str| s.chars().filter(|c| !c.is_whitespace()).collect::<String>();
    assert_eq!(visible(&chunks.concat()), visible(text));
    assert!(chunks.iter().all(|c| c.chars().count() <= 8));
}

#[test]
fn section_titles_follow_headings_in_order() {
    let a = article(vec![
        ContentBlock::text("前言".to_string()),
        ContentBlock::heading(" 第一章 ".to_string(), 1),
        ContentBlock::text("甲".to_string()),
        ContentBlock::heading("第二章".to_string(), 2),
        ContentBlock::heading("小节".to_string(), 3),
        ContentBlock::text("乙".to_string()),
    ]);
    let titles: Vec<String> = split_by_sections(&a).into_iter().map(|(t, _)| t).collect();
    assert_eq!(titles, vec!["开头".to_string(), "第一章".to_string(), "第二章".to_string()]);
}

#[test]
fn unescaping_gives_escaped_text_back() {
    let text: Vec<char> = "a<b> \"c\" 'd' 你好".chars().collect();
    assert_eq!(unescape_entities(&escape_ssml_chars(&text)), text);
}

#[test]
fn reading_text_keeps_the_notes() {
    let a = article(vec![
        ContentBlock::text("> 引用 *强调* &amp; (x)".to_string()),
        ContentBlock::other(BlockKind::Code, "print()".to_string()),
        ContentBlock::other(BlockKind::Math, "x^2".to_string()),
        ContentBlock::text("\n\n\n\n尾".to_string()),
        ContentBlock::other(BlockKind::Table, "a | b".to_string()),
    ]);
    let s = preprocess(&a);
    assert!(s.contains("（这里有一段代码，已跳过）"));
    assert!(s.contains("（这里有一个数学公式，已跳过）"));
    assert!(s.contains("（这里有一个表格，已跳过）"));
}

fn element(name: &str, alt: Option<&str>) -> html::HtmlEvent {
    html::HtmlEvent::Element {
        name: name.to_string(),
        alt: alt.map(|a| a.to_string()),
        rank: 0,
        attached: true,
    }
}

#[test]
fn element_step_only_appends() {
    let before = vec![ContentBlock::text("已有".to_string())];
    let pre = vec![element("pre", None), html::HtmlEvent::Text("  let  x\n = 1; ".to_string()), html::HtmlEvent::Close];
    let mut blocks = before.clone();
    html::process_element(&pre, 0, &mut blocks);
    assert_eq!(blocks.len(), 2);
    assert_eq!((blocks[0].kind, blocks[0].content.as_str()), (BlockKind::Text, "已有"));
    assert_eq!(blocks[1].kind, BlockKind::Code);
    assert_eq!(blocks[1].content, "let x = 1;");
    let nav = vec![element("nav", None), html::HtmlEvent::Text("菜单".to_string()), html::HtmlEvent::Close];
    let mut blocks = before.clone();
    html::process_element(&nav, 0, &mut blocks);
    assert_eq!(blocks.len(), 1);
    assert_eq!(blocks[0].content, "已有");
    let img = vec![element("img", Some("图")), html::HtmlEvent::Close];
    let mut blocks = before.clone();
    html::process_element(&img, 0, &mut blocks);
    assert_eq!(blocks.len(), 2);
    assert_eq!((blocks[1].kind, blocks[1].content.as_str()), (BlockKind::Image, "图"));
}

#[test]
fn sections_in_ssml_form() {
    let a = article(vec![
        ContentBlock::heading("一".to_string(), 1),
        ContentBlock::text("甲".to_string()),
        ContentBlock::heading("二".to_string(), 2),
        ContentBlock::text("乙".to_string()),
    ]);
    let plain = split_by_sections(&a);
    let ssml = split_by_sections_ssml(&a);
    assert_eq!(ssml.len(), plain.len());
    for ((t1, _), (t2, x)) in plain.iter().zip(ssml.iter()) {
        assert_eq!(t1, t2);
        assert!(x.starts_with("<speak") && x.ends_with("</speak>"));
        assert!(x.contains("<break time=\"800ms\"/>"));
    }
}

#[test]
fn upper_case_extension_is_recognised() {
    let a = parse_file(Some("X.MD"), "# 标题\n\n正文").unwrap();
    assert_eq!(a.source_format, SourceFormat::Markdown);
    assert_eq!(a.title, "标题");
}
