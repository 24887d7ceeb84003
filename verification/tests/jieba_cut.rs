//! The segmentation engine itself, on mixed English and Chinese text.

#[test]
fn test_tokenize_by_jieba_cut() {
    let jieba = jieba_rs::Jieba::new();
    let text = "The quick (\"brown\") fox can't jump 32.3 feet, right? 我将点燃星海！天上的stars全部都是 eye，不要凝视";
    let words: Vec<&str> = jieba.cut(text, false).iter().map(|t| t.word).collect();
    let vec = [
        "The", " ", "quick", " ", "(", "\"", "brown", "\"", ")", " ", "fox", " ", "can", "'", "t",
        " ", "jump", " ", "32", ".", "3", " ", "feet", ",", " ", "right", "?", " ", "我", "将",
        "点燃", "星海", "！", "天上", "的", "stars", "全部都是", " ", "eye", "，", "不要", "凝视",
    ];
    assert_eq!(words, vec);
    let words: Vec<&str> = jieba.cut(text, true).iter().map(|t| t.word).collect();
    let vec = [
        "The", " ", "quick", " ", "(", "\"", "brown", "\"", ")", " ", "fox", " ", "can", "'", "t",
        " ", "jump", " ", "32.3", " ", "feet", ",", " ", "right", "?", " ", "我", "将", "点燃",
        "星海", "！", "天上", "的", "stars", "全部都是", " ", "eye", "，", "不要", "凝视",
    ];
    assert_eq!(words, vec);
}

#[test]
fn test_tokenize_by_jieba_cut2() {
    let jieba = jieba_rs::Jieba::new();
    let text = "社会主义国家";
    let words: Vec<&str> = jieba.cut(text, true).iter().map(|t| t.word).collect();
    let vec = ["社会主义", "国家"];
    assert_eq!(words, vec);
}
