use limitchain::document::loader::{Document, Meta};
use limitchain::document::splitter::default_splitter;
use limitchain::document::splitter::markdown_splitter::MarkdownSplitter;
use limitchain::document::splitter::recursive_character_splitter::RecursiveCharacterSplitter;
use limitchain::document::splitter::Splitter;
use limitchain::str_map::StringMap;

#[test]
fn recursive_character_splitter_test_splitter() {
    let doc = "
默认的文本拆分器是RecursiveCharacterTextSplitter。这个文本拆分器会将一系列的字符作为输入。它试着根据第一个字符来分割文本，如果某个文本块太大了，就会尝试用后面的字符来分割。默认情况下，它会尝试用 这四个字符来分割文本。
除了控制可分割的字符之外，你还可以控制一些其他的东西：
length_function：用于计算文本块长度的方法。默认只是简单的计算字符数，但是在这里传递一个token计数器是非常常见的。
chunk_size：文本块的最大尺寸（由长度函数衡量）。
chunk_overlap：文本块之间的最大重叠量。保留一些重叠可以保持文本块之间的连续性（例如使用滑动窗口）。 ps.可以想象一下上学的时候，有经验的老师都会在上新课前带着同学们回顾一下上节课学到的知识，做一个承上启下。
下面是一个使用RecursiveCharacterTextSplitter拆分长文本的例子：
    ";

    let splitter = RecursiveCharacterSplitter {
        split_by: vec![
            "\n\n".to_string(),
            "\n".to_string(),
            ".".to_string(),
            "。".to_string(),
        ],
    };
    let res = splitter.split(doc.to_string(), 100, 40);
    for r in res {
        println!("{}\n", r);
        assert!(r.chars().collect::<Vec<_>>().len() <= 100);
    }
}

#[test]
fn markdown_splitter_test_splitter() {
    let doc = "
# Recursive Character Text Splitter

默认的文本拆分器是RecursiveCharacterTextSplitter。
这个文本拆分器会将一系列的字符作为输入。
它试着根据第一个字符来分割文本，如果某个文本块太大了，就会尝试用后面的字符来分割。
默认情况下，它会尝试用 这四个字符来分割文本。

## 控制

除了控制可分割的字符之外，你还可以控制一些其他的东西：

- length_function：用于计算文本块长度的方法。默认只是简单的计算字符数，但是在这里传递一个token计数器是非常常见的。
- chunk_size：文本块的最大尺寸（由长度函数衡量）。
- chunk_overlap：文本块之间的最大重叠量。保留一些重叠可以保持文本块之间的连续性（例如使用滑动窗口）。 ps.可以想象一下上学的时候，有经验的老师都会在上新课前带着同学们回顾一下上节课学到的知识，做一个承上启下。

下面是一个使用RecursiveCharacterTextSplitter拆分长文本的例子：
    ";

    let splitter = MarkdownSplitter::default();
    let res = splitter.split(doc.to_string(), 50, 20);
    for r in res {
        println!("{}\n", r);
        assert!(r.chars().collect::<Vec<_>>().len() <= 50);
    }
}

fn strings(v: &[&str]) -> Vec<String> {
    v.iter().map(|s| s.to_string()).collect()
}

#[test]
fn default_splitter_keeps_a_short_text_whole() {
    assert_eq!(default_splitter("hello".to_string(), 5, 2), strings(&["hello"]));
    assert_eq!(default_splitter("".to_string(), 3, 0), strings(&[""]));
}

#[test]
fn default_splitter_cuts_windows_with_overlap() {
    // windows of 4 start every 3 characters; what is left after the start
    // that follows the last whole window is a piece of its own
    assert_eq!(
        default_splitter("abcdefghij".to_string(), 4, 1),
        strings(&["abcd", "defg", "ghij", "j"])
    );
    assert_eq!(
        default_splitter("abcdefghijk".to_string(), 4, 1),
        strings(&["abcd", "defg", "ghij", "jk"])
    );
    assert_eq!(
        default_splitter("abcdef".to_string(), 3, 0),
        strings(&["abc", "def"])
    );
}

#[test]
fn default_splitter_measures_the_whole_text_in_bytes() {
    // three characters, nine bytes: more than 3 bytes, so it goes to the
    // windows, and one window of 3 characters holds it all
    assert_eq!(default_splitter("文本块".to_string(), 3, 0), strings(&["文本块"]));
    // with an overlap the last character comes once more
    assert_eq!(
        default_splitter("文本块".to_string(), 3, 1),
        strings(&["文本块", "块"])
    );
}

#[test]
fn consecutive_windows_share_the_overlap() {
    let text: String = ('a'..='z').collect();
    let parts = default_splitter(text, 10, 4);
    for pair in parts.windows(2) {
        let a: Vec<char> = pair[0].chars().collect();
        let b: Vec<char> = pair[1].chars().collect();
        let shared = b.len().min(4);
        assert_eq!(a[a.len() - 4..a.len() - 4 + shared], b[..shared]);
        assert!(a.len() <= 10 && b.len() <= 10);
    }
}

#[test]
fn recursive_splitter_keeps_and_trims_short_segments() {
    let splitter = RecursiveCharacterSplitter {
        split_by: vec!["\n\n".to_string(), " ".to_string()],
    };
    // split on the last delimiter, the space; every word fits and is kept
    assert_eq!(
        splitter.split("one two\n\nthree".to_string(), 20, 5),
        strings(&["one", "two\n\nthree"])
    );
}

#[test]
fn recursive_splitter_goes_on_with_the_delimiter_before() {
    let splitter = RecursiveCharacterSplitter {
        split_by: vec!["-".to_string(), " ".to_string()],
    };
    // "aaaa-bbbb" does not fit 5 and is split on "-"; "cc" fits
    assert_eq!(
        splitter.split("aaaa-bbbb cc".to_string(), 5, 1),
        strings(&["aaaa", "bbbb", "cc"])
    );
}

#[test]
fn recursive_splitter_falls_back_to_fixed_width() {
    let splitter = RecursiveCharacterSplitter {
        split_by: vec![" ".to_string()],
    };
    assert_eq!(
        splitter.split("abcdefgh ij".to_string(), 4, 1),
        strings(&["abcd", "defg", "gh", "ij"])
    );
    let bare = RecursiveCharacterSplitter { split_by: vec![] };
    assert_eq!(bare.split("  ab ".to_string(), 10, 1), strings(&["ab"]));
    assert_eq!(
        bare.split("abcdefg".to_string(), 3, 0),
        strings(&["abc", "def", "g"])
    );
}

#[test]
fn default_delimiters_are_the_documented_ones() {
    assert_eq!(
        RecursiveCharacterSplitter::default().split_by,
        strings(&["\n\n", "\n", ".", "。", " "])
    );
}

fn doc(text: &str) -> Document {
    Document {
        text: text.to_string(),
        meta: Meta::empty(),
    }
}

#[test]
fn split_docs_merges_short_neighbours_and_records_the_origin() {
    let splitter = RecursiveCharacterSplitter { split_by: vec![] };
    let docs = vec![doc("ab"), doc("cd"), doc("efghijklmnop")];
    // "ab" + "cd" take 4 <= 4 + 1 bytes; with the third they would take 16
    let out = splitter.split_docs(docs, 4, 1);
    let texts: Vec<&str> = out.iter().map(|d| d.text.as_str()).collect();
    assert_eq!(texts, vec!["abcd", "efgh", "hijk", "klmn", "nop"]);
    assert_eq!(out[0].meta.merge, Some(Box::new(Meta::empty())));
    assert_eq!(out[1].meta, Meta::empty());
    assert_eq!(out[4].meta, Meta::empty());
}

#[test]
fn attributes_of_the_origin_pass_through_merging_and_splitting() {
    let splitter = RecursiveCharacterSplitter { split_by: vec![] };
    let mut other = StringMap::new();
    other.insert("source".to_string(), "\"notes.md\"".to_string());
    other.insert("page".to_string(), "3".to_string());
    let first = Document {
        text: "ab".to_string(),
        meta: Meta {
            tag_stack: None,
            merge: None,
            other: other.clone(),
        },
    };
    let long = Document {
        text: "efghijkl".to_string(),
        meta: Meta {
            tag_stack: None,
            merge: None,
            other: other.clone(),
        },
    };
    let out = splitter.split_docs(vec![first, doc("cd"), long], 4, 1);
    let texts: Vec<&str> = out.iter().map(|d| d.text.as_str()).collect();
    assert_eq!(texts, vec!["abcd", "efgh", "hijk", "kl"]);
    // the joined document keeps its attributes and records the other origin
    assert_eq!(out[0].meta.other, other);
    assert_eq!(out[0].meta.merge, Some(Box::new(Meta::empty())));
    // every piece has the attributes of the document it was cut from
    for piece in &out[1..] {
        assert_eq!(piece.meta.other, other);
        assert_eq!(piece.meta.merge, None);
    }
}
