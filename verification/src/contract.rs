//! `CONTRACT.md`: the document that describes the artefacts. Its structure is
//! fixed text; the figures come from the run.

use vstd::prelude::*;
use crate::graph::EdgeBreakdown;
use crate::links::Stats;
use crate::strs::{decimal, push_decimal, push_decimal_u64, push_str};

verus! {

/// Summary of a run (printed, and recorded in `CONTRACT.md`).
#[derive(Debug)]
pub struct Report {
    pub root: String,
    pub stage: String,
    pub out: String,
    pub base_path: String,
    pub files_scanned: usize,
    pub notes_scanned: usize,
    pub dirs_scanned: usize,
    pub excluded_dirs: Vec<String>,
    pub notes_staged: usize,
    pub files_copied: usize,
    pub gh_blob_left: usize,
    pub stats: Stats,
    pub nodes: usize,
    pub section_count: usize,
    pub edges_unique: usize,
    pub csr_targets: usize,
    pub node_hubs: usize,
    pub breakdown: EdgeBreakdown,
    pub sections: Vec<(String, usize)>,
    pub seed: u64,
    pub iterations: usize,
    /// Layout time in seconds, written with two decimals.
    pub layout_seconds: String,
    pub determinism_pos: bool,
    pub determinism_graph: bool,
    pub determinism_search: bool,
    /// The measured range `(x min, x max, y min, y max)`, each written with
    /// three decimals.
    pub pos_bounds: (String, String, String, String),
    pub root_sha256: String,
    pub built_at: String,
    pub titles_from_filename: usize,
    pub pos_bytes: usize,
    pub graph_bytes: usize,
    pub search_bytes: usize,
    pub meta_bytes: usize,
    pub contract_bytes: usize,
}

/// `n - 1`, or 0 (`usize::saturating_sub`).
pub open spec fn minus_one(n: nat) -> nat {
    if n >= 1 {
        (n - 1) as nat
    } else {
        0
    }
}

/// How a comparison of two runs reads: equal or not.
pub open spec fn same_text(b: bool) -> Seq<char> {
    if b {
        "동일"@
    } else {
        "불일치"@
    }
}

fn same_str(b: bool) -> (r: &'static str)
    ensures
        r@ == same_text(b),
{
    if b {
        "동일"
    } else {
        "불일치"
    }
}

/// The title, how the files are made, and where this run read and wrote.
pub open spec fn head_text(r: Report) -> Seq<char> {
    "# site/generated 산출물 계약 (L1 content-pipeline)\n\n"@ + "이 디렉터리의 파일은 `tools/graph` 의 Rust 파이프라인이 **빌드타임에** 생성한다. 손으로 편집하지 말 것.\n\n"@ + "```\n"@ + "cargo run -p graph-build --release -- --root . --out site/generated --stage .cache/content\n"@ + "```\n\n"@ + "- root: `"@ + r.root@ + "`\n- stage: `"@ + r.stage@ + "`\n- out: `"@ + r.out@ + "`\n- base path: `"@ + r.base_path@ + "`\n\n"@
}

fn head_part(r: &Report) -> (s: String)
    ensures
        s@ == head_text(*r),
{
    let mut out = String::new();
    push_str(&mut out, "# site/generated 산출물 계약 (L1 content-pipeline)\n\n");
    push_str(&mut out, "이 디렉터리의 파일은 `tools/graph` 의 Rust 파이프라인이 **빌드타임에** 생성한다. 손으로 편집하지 말 것.\n\n");
    push_str(&mut out, "```\n");
    push_str(&mut out, "cargo run -p graph-build --release -- --root . --out site/generated --stage .cache/content\n");
    push_str(&mut out, "```\n\n");
    push_str(&mut out, "- root: `");
    push_str(&mut out, r.root.as_str());
    push_str(&mut out, "`\n- stage: `");
    push_str(&mut out, r.stage.as_str());
    push_str(&mut out, "`\n- out: `");
    push_str(&mut out, r.out.as_str());
    push_str(&mut out, "`\n- base path: `");
    push_str(&mut out, r.base_path.as_str());
    push_str(&mut out, "`\n\n");
    assert(out@ =~= head_text(*r));
    out
}

/// Section 1: the files.
pub open spec fn files_text(r: Report) -> Seq<char> {
    "## 1. 파일\n\n"@ + "| 파일 | 형식 |\n| --- | --- |\n"@ + "| `pos.bin` | `f32` little-endian, `[x, y] * N` (노드 순서 = `search.json` 의 `id` 순서, 그 뒤에 허브 노드) |\n"@ + "| `graph.bin` | `u32` little-endian, `[offsets N+1][targets E]` (CSR) |\n"@ + "| `search.json` | JSON 배열 `[{\"id\",\"title\",\"path\",\"url\",\"section\",\"choseong\",\"size\",\"degree\"}]` |\n"@ + "| `meta.json` | JSON 객체 `{\"nodes\",\"edges\",\"sections\",\"built_at\",\"root_sha256\",\"layout\",\"seed\"}` |\n"@ + "| `CONTRACT.md` | 이 문서 |\n\n"@
}

fn files_part(r: &Report) -> (s: String)
    ensures
        s@ == files_text(*r),
{
    let mut out = String::new();
    push_str(&mut out, "## 1. 파일\n\n");
    push_str(&mut out, "| 파일 | 형식 |\n| --- | --- |\n");
    push_str(&mut out, "| `pos.bin` | `f32` little-endian, `[x, y] * N` (노드 순서 = `search.json` 의 `id` 순서, 그 뒤에 허브 노드) |\n");
    push_str(&mut out, "| `graph.bin` | `u32` little-endian, `[offsets N+1][targets E]` (CSR) |\n");
    push_str(&mut out, "| `search.json` | JSON 배열 `[{\"id\",\"title\",\"path\",\"url\",\"section\",\"choseong\",\"size\",\"degree\"}]` |\n");
    push_str(&mut out, "| `meta.json` | JSON 객체 `{\"nodes\",\"edges\",\"sections\",\"built_at\",\"root_sha256\",\"layout\",\"seed\"}` |\n");
    push_str(&mut out, "| `CONTRACT.md` | 이 문서 |\n\n");
    assert(out@ =~= files_text(*r));
    out
}

/// Section 2: the node and edge model, with the edge counts of this run.
pub open spec fn model_text(r: Report) -> Seq<char> {
    "## 2. 노드 / 엣지 모델\n\n"@ + "- 노드 수 `N = "@ + decimal(r.nodes as nat) + "` = 노트 `"@ + decimal(r.notes_scanned as nat) + "` + 섹션 허브 `"@ + decimal(r.section_count as nat) + "` + 루트 허브 `1`.\n"@ + "- node id `0.."@ + decimal(minus_one(r.notes_scanned as nat)) + "`: 노트. 정렬 기준은 **저장소 상대 경로(NFC) 오름차순(바이트 순)** 이며 `search.json` 의 `id` 와 완전히 같은 순서다.\n"@ + "- node id `"@ + decimal(r.notes_scanned as nat) + ".."@ + decimal(r.notes_scanned as nat + minus_one(r.section_count as nat)) + "`: 톱레벨 섹션 허브(디렉터리 이름 오름차순). node id `"@ + decimal(minus_one(r.nodes as nat)) + "`: 루트 허브(가장 마지막).\n"@ + "- 엣지는 **무방향**이며 중복을 제거한다(작은 id가 앞).\n"@ + "- `graph.bin` 의 CSR 은 무방향 엣지를 **양방향으로 2번** 저장한다. 따라서 `targets` 길이 `= 2 * |엣지|` 이고 `meta.json` 의 `edges` 는 그 `targets` 길이(= `offsets[N]`)다. 노드 `v` 의 차수는 `offsets[v+1] - offsets[v]`.\n"@ + "- 엣지 구성(중복 제거 후 실제 삽입 기준): 섹션 소속 "@ + decimal(r.breakdown.section_membership as nat) + " + 루트↔섹션 "@ + decimal(r.breakdown.root_to_section as nat) + " + 노트↔노트 "@ + decimal(r.breakdown.intra_note as nat) + " + README→노트 "@ + decimal(r.breakdown.readme_direct as nat) + " + README 부모→자식 "@ + decimal(r.breakdown.readme_parent_child as nat) + " + README→섹션 "@ + decimal(r.breakdown.readme_to_section as nat) + " = **"@ + decimal(r.edges_unique as nat) + " 무방향 엣지** (CSR 타깃 "@ + decimal(r.csr_targets as nat) + ").\n\n"@ + "엣지 규칙(이 순서로 삽입 후 중복 제거):\n\n"@ + "1. **섹션 소속**: 노트 ↔ 그 노트의 톱레벨 섹션 허브. 루트에 있는 노트(`README.md`)는 루트 허브에 붙는다.\n"@ + "2. **루트 허브 ↔ 각 섹션 허브**.\n"@ + "3. **본문 내 노트 링크**: 노트 A의 링크가 노트 B로 해석되면 A ↔ B.\n"@ + "4. **README 직접 링크**: `README.md` 의 모든 내부 링크(디렉터리 타깃은 섹션 허브로) → README ↔ 대상.\n"@ + "5. **README 중첩 목록 계층**: 같은 목록에서 더 얕은 들여쓰기의 직전 항목이 부모다 → 부모 ↔ 자식. 부모 링크가 외부/미해석이면 그 위 조상에 붙는다.\n\n"@
}

fn model_part(r: &Report) -> (s: String)
    requires
        r.notes_scanned + r.section_count <= usize::MAX,
    ensures
        s@ == model_text(*r),
{
    let mut out = String::new();
    push_str(&mut out, "## 2. 노드 / 엣지 모델\n\n");
    push_str(&mut out, "- 노드 수 `N = ");
    push_decimal(&mut out, r.nodes);
    push_str(&mut out, "` = 노트 `");
    push_decimal(&mut out, r.notes_scanned);
    push_str(&mut out, "` + 섹션 허브 `");
    push_decimal(&mut out, r.section_count);
    push_str(&mut out, "` + 루트 허브 `1`.\n");
    push_str(&mut out, "- node id `0..");
    push_decimal(&mut out, r.notes_scanned.saturating_sub(1));
    push_str(&mut out, "`: 노트. 정렬 기준은 **저장소 상대 경로(NFC) 오름차순(바이트 순)** 이며 `search.json` 의 `id` 와 완전히 같은 순서다.\n");
    push_str(&mut out, "- node id `");
    push_decimal(&mut out, r.notes_scanned);
    push_str(&mut out, "..");
    push_decimal(&mut out, r.notes_scanned + r.section_count.saturating_sub(1));
    push_str(&mut out, "`: 톱레벨 섹션 허브(디렉터리 이름 오름차순). node id `");
    push_decimal(&mut out, r.nodes.saturating_sub(1));
    push_str(&mut out, "`: 루트 허브(가장 마지막).\n");
    push_str(&mut out, "- 엣지는 **무방향**이며 중복을 제거한다(작은 id가 앞).\n");
    push_str(&mut out, "- `graph.bin` 의 CSR 은 무방향 엣지를 **양방향으로 2번** 저장한다. 따라서 `targets` 길이 `= 2 * |엣지|` 이고 `meta.json` 의 `edges` 는 그 `targets` 길이(= `offsets[N]`)다. 노드 `v` 의 차수는 `offsets[v+1] - offsets[v]`.\n");
    push_str(&mut out, "- 엣지 구성(중복 제거 후 실제 삽입 기준): 섹션 소속 ");
    push_decimal(&mut out, r.breakdown.section_membership);
    push_str(&mut out, " + 루트↔섹션 ");
    push_decimal(&mut out, r.breakdown.root_to_section);
    push_str(&mut out, " + 노트↔노트 ");
    push_decimal(&mut out, r.breakdown.intra_note);
    push_str(&mut out, " + README→노트 ");
    push_decimal(&mut out, r.breakdown.readme_direct);
    push_str(&mut out, " + README 부모→자식 ");
    push_decimal(&mut out, r.breakdown.readme_parent_child);
    push_str(&mut out, " + README→섹션 ");
    push_decimal(&mut out, r.breakdown.readme_to_section);
    push_str(&mut out, " = **");
    push_decimal(&mut out, r.edges_unique);
    push_str(&mut out, " 무방향 엣지** (CSR 타깃 ");
    push_decimal(&mut out, r.csr_targets);
    push_str(&mut out, ").\n\n");
    push_str(&mut out, "엣지 규칙(이 순서로 삽입 후 중복 제거):\n\n");
    push_str(&mut out, "1. **섹션 소속**: 노트 ↔ 그 노트의 톱레벨 섹션 허브. 루트에 있는 노트(`README.md`)는 루트 허브에 붙는다.\n");
    push_str(&mut out, "2. **루트 허브 ↔ 각 섹션 허브**.\n");
    push_str(&mut out, "3. **본문 내 노트 링크**: 노트 A의 링크가 노트 B로 해석되면 A ↔ B.\n");
    push_str(&mut out, "4. **README 직접 링크**: `README.md` 의 모든 내부 링크(디렉터리 타깃은 섹션 허브로) → README ↔ 대상.\n");
    push_str(&mut out, "5. **README 중첩 목록 계층**: 같은 목록에서 더 얕은 들여쓰기의 직전 항목이 부모다 → 부모 ↔ 자식. 부모 링크가 외부/미해석이면 그 위 조상에 붙는다.\n\n");
    assert(out@ =~= model_text(*r));
    out
}

/// Section 3: coordinates, with the seed, iterations and measured range.
pub open spec fn coords_text(r: Report) -> Seq<char> {
    "## 3. 좌표 (pos.bin)\n\n"@ + "- 알고리즘: `fa2` 크레이트(MIT)의 ForceAtlas2 — pairwise repulsion, `from_graph_order(N)`, `parallel(false)`.\n- seed: `"@ + decimal(r.seed as nat) + "` (splitmix64 로 초기 좌표 생성), iterations: `"@ + decimal(r.iterations as nat) + "` (고정).\n"@ + "- 좌표 단위는 임의 단위다. 표시할 때 화면에 맞춰 fit 할 것.\n"@ + "- 실측 범위: x ["@ + r.pos_bounds.0@ + ", "@ + r.pos_bounds.1@ + "] / y ["@ + r.pos_bounds.2@ + ", "@ + r.pos_bounds.3@ + "].\n"@ + "- 결정론: 같은 입력이면 `pos.bin` 이 바이트 단위로 동일하다(CI 해시 게이트 대상).\n\n"@
}

fn coords_part(r: &Report) -> (s: String)
    ensures
        s@ == coords_text(*r),
{
    let mut out = String::new();
    push_str(&mut out, "## 3. 좌표 (pos.bin)\n\n");
    push_str(&mut out, "- 알고리즘: `fa2` 크레이트(MIT)의 ForceAtlas2 — pairwise repulsion, `from_graph_order(N)`, `parallel(false)`.\n- seed: `");
    push_decimal_u64(&mut out, r.seed);
    push_str(&mut out, "` (splitmix64 로 초기 좌표 생성), iterations: `");
    push_decimal(&mut out, r.iterations);
    push_str(&mut out, "` (고정).\n");
    push_str(&mut out, "- 좌표 단위는 임의 단위다. 표시할 때 화면에 맞춰 fit 할 것.\n");
    push_str(&mut out, "- 실측 범위: x [");
    push_str(&mut out, r.pos_bounds.0.as_str());
    push_str(&mut out, ", ");
    push_str(&mut out, r.pos_bounds.1.as_str());
    push_str(&mut out, "] / y [");
    push_str(&mut out, r.pos_bounds.2.as_str());
    push_str(&mut out, ", ");
    push_str(&mut out, r.pos_bounds.3.as_str());
    push_str(&mut out, "].\n");
    push_str(&mut out, "- 결정론: 같은 입력이면 `pos.bin` 이 바이트 단위로 동일하다(CI 해시 게이트 대상).\n\n");
    assert(out@ =~= coords_text(*r));
    out
}

/// Section 4: the keys of `search.json`.
pub open spec fn search_keys_text(r: Report) -> Seq<char> {
    "## 4. search.json\n\n"@ + "| 키 | 뜻 |\n| --- | --- |\n"@ + "| `id` | 노드 id (`0..노트수-1`). `pos.bin` 의 같은 인덱스와 대응. |\n"@ + "| `title` | 본문 첫 `# ` 제목. 없으면 파일명(확장자 제거). NFC. |\n"@ + "| `path` | 저장소 기준 노트 상대 경로(스테이지가 아니라 원본 기준, NFC) |\n"@ + "| `url` | 사이트 루트 기준 페이지 URL (`base path` + 페이지 경로). 페이지 내 상대 링크와 달리 절대 형태다. |\n"@ + "| `section` | 톱레벨 섹션 이름. 루트 노트는 `root`. |\n"@ + "| `choseong` | `title` 의 한글 초성 문자열. 완성형 음절은 `(음절-0xAC00)/588` 로 초성 인덱스를 구하고, 비한글 문자는 그대로 둔다. |\n"@ + "| `size` | 노트 파일 크기(byte) |\n"@ + "| `degree` | 무방향 그래프에서의 이웃 수 |\n\n"@ + "배열 순서 = `id` 오름차순. 압축 없이 한 줄 JSON 이며 개행이 없다.\n\n"@
}

fn search_keys_part(r: &Report) -> (s: String)
    ensures
        s@ == search_keys_text(*r),
{
    let mut out = String::new();
    push_str(&mut out, "## 4. search.json\n\n");
    push_str(&mut out, "| 키 | 뜻 |\n| --- | --- |\n");
    push_str(&mut out, "| `id` | 노드 id (`0..노트수-1`). `pos.bin` 의 같은 인덱스와 대응. |\n");
    push_str(&mut out, "| `title` | 본문 첫 `# ` 제목. 없으면 파일명(확장자 제거). NFC. |\n");
    push_str(&mut out, "| `path` | 저장소 기준 노트 상대 경로(스테이지가 아니라 원본 기준, NFC) |\n");
    push_str(&mut out, "| `url` | 사이트 루트 기준 페이지 URL (`base path` + 페이지 경로). 페이지 내 상대 링크와 달리 절대 형태다. |\n");
    push_str(&mut out, "| `section` | 톱레벨 섹션 이름. 루트 노트는 `root`. |\n");
    push_str(&mut out, "| `choseong` | `title` 의 한글 초성 문자열. 완성형 음절은 `(음절-0xAC00)/588` 로 초성 인덱스를 구하고, 비한글 문자는 그대로 둔다. |\n");
    push_str(&mut out, "| `size` | 노트 파일 크기(byte) |\n");
    push_str(&mut out, "| `degree` | 무방향 그래프에서의 이웃 수 |\n\n");
    push_str(&mut out, "배열 순서 = `id` 오름차순. 압축 없이 한 줄 JSON 이며 개행이 없다.\n\n");
    assert(out@ =~= search_keys_text(*r));
    out
}

/// Section 5: the keys of `meta.json`.
pub open spec fn meta_keys_text(r: Report) -> Seq<char> {
    "## 5. meta.json\n\n"@ + "- `nodes` / `edges`: 그래프 노드 수와 CSR 타깃 길이.\n"@ + "- `sections`: `[{\"name\",\"count\"}]` — 톱레벨 섹션 이름(오름차순)과 노트 수.\n"@ + "- `built_at`: 빌드 시각(UTC, ISO-8601). **비결정 필드**다(아래 해시 게이트 대상에서 제외).\n"@ + "- `root_sha256`: 입력 트리 지문. 스캔한 모든 파일에 대해 `path\\\\0size\\\\0sha256(content)\\\\n` 를 이어 붙여 sha256 한 값.\n"@ + "- `layout`: `\"fa2\"` 고정. `seed`: 레이아웃 시드.\n\n"@
}

fn meta_keys_part(r: &Report) -> (s: String)
    ensures
        s@ == meta_keys_text(*r),
{
    let mut out = String::new();
    push_str(&mut out, "## 5. meta.json\n\n");
    push_str(&mut out, "- `nodes` / `edges`: 그래프 노드 수와 CSR 타깃 길이.\n");
    push_str(&mut out, "- `sections`: `[{\"name\",\"count\"}]` — 톱레벨 섹션 이름(오름차순)과 노트 수.\n");
    push_str(&mut out, "- `built_at`: 빌드 시각(UTC, ISO-8601). **비결정 필드**다(아래 해시 게이트 대상에서 제외).\n");
    push_str(&mut out, "- `root_sha256`: 입력 트리 지문. 스캔한 모든 파일에 대해 `path\\\\0size\\\\0sha256(content)\\\\n` 를 이어 붙여 sha256 한 값.\n");
    push_str(&mut out, "- `layout`: `\"fa2\"` 고정. `seed`: 레이아웃 시드.\n\n");
    assert(out@ =~= meta_keys_text(*r));
    out
}

/// Section 6: how note links are normalised in the staged tree.
pub open spec fn link_rules_text(r: Report) -> Seq<char> {
    "## 6. 노트 링크 정규화 (스테이지 트리에만 적용)\n\n"@ + "원본 `.md` 는 절대 수정하지 않는다. 스테이지 사본에서만 링크 목적지를 다시 쓴다.\n\n"@ + "| 입력 | 출력 |\n| --- | --- |\n"@ + "| `https://github.com/rlaope/estudy/blob/master/<p>.md` | 그 노트의 스테이지 페이지로 가는 **상대 URL** |\n"@ + "| 상대 `foo.md`, `../x/foo.md` | 스테이지 페이지 상대 URL |\n"@ + "| 디렉터리 타깃 (`MSA/pattern`) | 가장 가까운 상위 **섹션 페이지** |\n"@ + "| 대소문자 불일치 (`interpreter.md`) | 실제 파일명으로 교정 (규칙 d) |\n"@ + "| 그 밖의 저장소 파일 (`*.png`, `*.ipynb`) | 스테이지 안 같은 경로 상대 URL(사이트 밖으로 나가지 않게) |\n"@ + "| 외부 URL, `#anchor`, `mailto:` | 손대지 않음 |\n\n"@ + "해석 순서: (1) `.md` 정확 일치 → (2) `.md` 대소문자 무시 일치 → (3) 디렉터리면 섹션 페이지 → (4) 파일 정확/대소문자 무시 일치 → (5) 저장소 전체에서 basename 이 유일한 파일 → (6) 확장자 교정(`paxra.m` → `paxra.md`). (5)(6) 은 원문이 옮겨졌거나 오타인 경우를 복구한다.\n\n"@ + "링크 URL 은 원본 페이지 기준 **상대 경로**로 쓴다(`../JAVA/jvm.html`). base path 가 `/` 든 `/estudy/` 든, `hugo server` 든 GitHub Pages 든 동일하게 동작하기 때문이다. 공백/`%`/`#`/`?`/괄호는 퍼센트 인코딩하고 한글은 그대로 둔다(NFC).\n\n"@ + "스테이지 규칙:\n\n"@ + "- 트리 구조를 그대로 복사한다(이미지 포함). 제외: `.git`, `.omh`, `site`, `.cache`, `public`, `.github`, `tools`, `target`, `.cargo`, 루트의 `Cargo.toml`/`Cargo.lock`.\n"@ + "- `DataBase/index.md` → `DataBase/_index.md` 로 이름만 바꾼다. Hugo 가 `index.md` 를 leaf bundle 로 보고 형제 노트 75개를 흡수하기 때문이다(실측).\n"@ + "- 노트의 경로 자체는 바꾸지 않는다(URL 안정성).\n\n"@
}

fn link_rules_part(r: &Report) -> (s: String)
    ensures
        s@ == link_rules_text(*r),
{
    let mut out = String::new();
    push_str(&mut out, "## 6. 노트 링크 정규화 (스테이지 트리에만 적용)\n\n");
    push_str(&mut out, "원본 `.md` 는 절대 수정하지 않는다. 스테이지 사본에서만 링크 목적지를 다시 쓴다.\n\n");
    push_str(&mut out, "| 입력 | 출력 |\n| --- | --- |\n");
    push_str(&mut out, "| `https://github.com/rlaope/estudy/blob/master/<p>.md` | 그 노트의 스테이지 페이지로 가는 **상대 URL** |\n");
    push_str(&mut out, "| 상대 `foo.md`, `../x/foo.md` | 스테이지 페이지 상대 URL |\n");
    push_str(&mut out, "| 디렉터리 타깃 (`MSA/pattern`) | 가장 가까운 상위 **섹션 페이지** |\n");
    push_str(&mut out, "| 대소문자 불일치 (`interpreter.md`) | 실제 파일명으로 교정 (규칙 d) |\n");
    push_str(&mut out, "| 그 밖의 저장소 파일 (`*.png`, `*.ipynb`) | 스테이지 안 같은 경로 상대 URL(사이트 밖으로 나가지 않게) |\n");
    push_str(&mut out, "| 외부 URL, `#anchor`, `mailto:` | 손대지 않음 |\n\n");
    push_str(&mut out, "해석 순서: (1) `.md` 정확 일치 → (2) `.md` 대소문자 무시 일치 → (3) 디렉터리면 섹션 페이지 → (4) 파일 정확/대소문자 무시 일치 → (5) 저장소 전체에서 basename 이 유일한 파일 → (6) 확장자 교정(`paxra.m` → `paxra.md`). (5)(6) 은 원문이 옮겨졌거나 오타인 경우를 복구한다.\n\n");
    push_str(&mut out, "링크 URL 은 원본 페이지 기준 **상대 경로**로 쓴다(`../JAVA/jvm.html`). base path 가 `/` 든 `/estudy/` 든, `hugo server` 든 GitHub Pages 든 동일하게 동작하기 때문이다. 공백/`%`/`#`/`?`/괄호는 퍼센트 인코딩하고 한글은 그대로 둔다(NFC).\n\n");
    push_str(&mut out, "스테이지 규칙:\n\n");
    push_str(&mut out, "- 트리 구조를 그대로 복사한다(이미지 포함). 제외: `.git`, `.omh`, `site`, `.cache`, `public`, `.github`, `tools`, `target`, `.cargo`, 루트의 `Cargo.toml`/`Cargo.lock`.\n");
    push_str(&mut out, "- `DataBase/index.md` → `DataBase/_index.md` 로 이름만 바꾼다. Hugo 가 `index.md` 를 leaf bundle 로 보고 형제 노트 75개를 흡수하기 때문이다(실측).\n");
    push_str(&mut out, "- 노트의 경로 자체는 바꾸지 않는다(URL 안정성).\n\n");
    assert(out@ =~= link_rules_text(*r));
    out
}

/// Section 7: determinism.
pub open spec fn determinism_text(r: Report) -> Seq<char> {
    "## 7. 결정론\n\n"@ + "`pos.bin` / `graph.bin` / `search.json` 은 **연속 2회 실행에서 바이트 단위로 동일**해야 한다.\n"@ + "보장 방법: 입력 스캔을 경로 오름차순으로 고정, HashMap 대신 정렬 Vec/BTreeSet 사용, fa2 순차 경로만 사용, 초기 좌표는 고정 시드 PRNG, 반복 횟수 고정. 시각/난수는 `meta.json` 의 `built_at` 에만 들어간다.\n\n"@ + "```\n"@ + "shasum -a 256 site/generated/pos.bin   # 두 번 실행해 비교\n```\n\n"@
}

fn determinism_part(r: &Report) -> (s: String)
    ensures
        s@ == determinism_text(*r),
{
    let mut out = String::new();
    push_str(&mut out, "## 7. 결정론\n\n");
    push_str(&mut out, "`pos.bin` / `graph.bin` / `search.json` 은 **연속 2회 실행에서 바이트 단위로 동일**해야 한다.\n");
    push_str(&mut out, "보장 방법: 입력 스캔을 경로 오름차순으로 고정, HashMap 대신 정렬 Vec/BTreeSet 사용, fa2 순차 경로만 사용, 초기 좌표는 고정 시드 PRNG, 반복 횟수 고정. 시각/난수는 `meta.json` 의 `built_at` 에만 들어간다.\n\n");
    push_str(&mut out, "```\n");
    push_str(&mut out, "shasum -a 256 site/generated/pos.bin   # 두 번 실행해 비교\n```\n\n");
    assert(out@ =~= determinism_text(*r));
    out
}

/// Section 8: the measurements of this run.
pub open spec fn measured_text(r: Report) -> Seq<char> {
    "## 8. 이번 실행 실측\n\n"@ + "- 노트 "@ + decimal(r.notes_scanned as nat) + " 개(파일 "@ + decimal(r.files_scanned as nat) + " 개, 디렉터리 "@ + decimal(r.dirs_scanned as nat) + " 개) 스캔, 노트 "@ + decimal(r.notes_staged as nat) + " 개 스테이징, 그 외 파일 "@ + decimal(r.files_copied as nat) + " 개 복사.\n"@ + "- 링크: 인라인 "@ + decimal(r.stats.inline_total as nat) + " 개 중 내부 해석 "@ + decimal(r.stats.internal as nat) + " 개(노트 "@ + decimal(r.stats.note_links as nat) + " · 섹션 "@ + decimal(r.stats.section_links as nat) + " · 자산 "@ + decimal(r.stats.asset_links as nat) + "), 재작성 "@ + decimal(r.stats.rewritten as nat) + " 개, 대소문자 교정 "@ + decimal(r.stats.case_fixed as nat) + " 개, basename 복구 "@ + decimal(r.stats.recovered_basename as nat) + " 개, 확장자 교정 "@ + decimal(r.stats.ext_swap as nat) + " 개, **미해석 "@ + decimal(r.stats.unresolved@.len()) + " 개**. 스테이지에 남은 `github.com/rlaope/estudy/blob/master/` URL: "@ + decimal(r.gh_blob_left as nat) + " 개.\n"@ + "- 그래프: 노드 "@ + decimal(r.nodes as nat) + " / 무방향 엣지 "@ + decimal(r.edges_unique as nat) + " / CSR 타깃 "@ + decimal(r.csr_targets as nat) + ".\n"@ + "- 레이아웃: "@ + r.layout_seconds@ + " 초 (2회 대조 "@ + same_text(r.determinism_pos) + "). 그래프 재직렬화 대조 "@ + same_text(r.determinism_graph) + ". search.json 재직렬화 대조 "@ + same_text(r.determinism_search) + ".\n"@ + "- 파일 크기: pos.bin "@ + decimal(r.pos_bytes as nat) + " B, graph.bin "@ + decimal(r.graph_bytes as nat) + " B, search.json "@ + decimal(r.search_bytes as nat) + " B, meta.json "@ + decimal(r.meta_bytes as nat) + " B, CONTRACT.md "@ + decimal(r.contract_bytes as nat) + " B.\n"@ + "- 제목이 파일명으로 대체된 노트: "@ + decimal(r.titles_from_filename as nat) + " 개 (첫 `# ` 제목이 없는 경우).\n"@ + "- root_sha256: `"@ + r.root_sha256@ + "` (빌드 시각 "@ + r.built_at@ + ")\n"@
}

fn measured_part(r: &Report) -> (s: String)
    ensures
        s@ == measured_text(*r),
{
    let mut out = String::new();
    push_str(&mut out, "## 8. 이번 실행 실측\n\n");
    push_str(&mut out, "- 노트 ");
    push_decimal(&mut out, r.notes_scanned);
    push_str(&mut out, " 개(파일 ");
    push_decimal(&mut out, r.files_scanned);
    push_str(&mut out, " 개, 디렉터리 ");
    push_decimal(&mut out, r.dirs_scanned);
    push_str(&mut out, " 개) 스캔, 노트 ");
    push_decimal(&mut out, r.notes_staged);
    push_str(&mut out, " 개 스테이징, 그 외 파일 ");
    push_decimal(&mut out, r.files_copied);
    push_str(&mut out, " 개 복사.\n");
    push_str(&mut out, "- 링크: 인라인 ");
    push_decimal(&mut out, r.stats.inline_total);
    push_str(&mut out, " 개 중 내부 해석 ");
    push_decimal(&mut out, r.stats.internal);
    push_str(&mut out, " 개(노트 ");
    push_decimal(&mut out, r.stats.note_links);
    push_str(&mut out, " · 섹션 ");
    push_decimal(&mut out, r.stats.section_links);
    push_str(&mut out, " · 자산 ");
    push_decimal(&mut out, r.stats.asset_links);
    push_str(&mut out, "), 재작성 ");
    push_decimal(&mut out, r.stats.rewritten);
    push_str(&mut out, " 개, 대소문자 교정 ");
    push_decimal(&mut out, r.stats.case_fixed);
    push_str(&mut out, " 개, basename 복구 ");
    push_decimal(&mut out, r.stats.recovered_basename);
    push_str(&mut out, " 개, 확장자 교정 ");
    push_decimal(&mut out, r.stats.ext_swap);
    push_str(&mut out, " 개, **미해석 ");
    push_decimal(&mut out, r.stats.unresolved.len());
    push_str(&mut out, " 개**. 스테이지에 남은 `github.com/rlaope/estudy/blob/master/` URL: ");
    push_decimal(&mut out, r.gh_blob_left);
    push_str(&mut out, " 개.\n");
    push_str(&mut out, "- 그래프: 노드 ");
    push_decimal(&mut out, r.nodes);
    push_str(&mut out, " / 무방향 엣지 ");
    push_decimal(&mut out, r.edges_unique);
    push_str(&mut out, " / CSR 타깃 ");
    push_decimal(&mut out, r.csr_targets);
    push_str(&mut out, ".\n");
    push_str(&mut out, "- 레이아웃: ");
    push_str(&mut out, r.layout_seconds.as_str());
    push_str(&mut out, " 초 (2회 대조 ");
    push_str(&mut out, same_str(r.determinism_pos));
    push_str(&mut out, "). 그래프 재직렬화 대조 ");
    push_str(&mut out, same_str(r.determinism_graph));
    push_str(&mut out, ". search.json 재직렬화 대조 ");
    push_str(&mut out, same_str(r.determinism_search));
    push_str(&mut out, ".\n");
    push_str(&mut out, "- 파일 크기: pos.bin ");
    push_decimal(&mut out, r.pos_bytes);
    push_str(&mut out, " B, graph.bin ");
    push_decimal(&mut out, r.graph_bytes);
    push_str(&mut out, " B, search.json ");
    push_decimal(&mut out, r.search_bytes);
    push_str(&mut out, " B, meta.json ");
    push_decimal(&mut out, r.meta_bytes);
    push_str(&mut out, " B, CONTRACT.md ");
    push_decimal(&mut out, r.contract_bytes);
    push_str(&mut out, " B.\n");
    push_str(&mut out, "- 제목이 파일명으로 대체된 노트: ");
    push_decimal(&mut out, r.titles_from_filename);
    push_str(&mut out, " 개 (첫 `# ` 제목이 없는 경우).\n");
    push_str(&mut out, "- root_sha256: `");
    push_str(&mut out, r.root_sha256.as_str());
    push_str(&mut out, "` (빌드 시각 ");
    push_str(&mut out, r.built_at.as_str());
    push_str(&mut out, ")\n");
    assert(out@ =~= measured_text(*r));
    out
}

/// One list line per recovered link.
pub open spec fn recovered_lines(lines: Seq<String>) -> Seq<char>
    decreases lines.len(),
{
    if lines.len() == 0 {
        Seq::empty()
    } else {
        recovered_lines(lines.drop_last()) + "- `"@ + lines.last()@ + "`\n"@
    }
}

/// The recovered links (at most 64), when any link was recovered.
pub open spec fn recovered_text(r: Report) -> Seq<char> {
    if r.stats.recovered_basename > 0 || r.stats.ext_swap > 0 {
        "\n### 자동 복구한 링크\n\n"@
            + "원문이 가리키는 경로가 실제로 없어서, 저장소 전체에서 이름이 유일한 파일로 되돌린 링크들이다(원본 `.md` 는 그대로 두었다).\n\n"@
            + recovered_lines(r.stats.recovered@.take(if r.stats.recovered@.len() < 64 {
            r.stats.recovered@.len() as int
        } else {
            64
        }))
    } else {
        Seq::empty()
    }
}

/// One list line per section: name and number of notes.
pub open spec fn section_lines(sections: Seq<(String, usize)>) -> Seq<char>
    decreases sections.len(),
{
    if sections.len() == 0 {
        Seq::empty()
    } else {
        section_lines(sections.drop_last()) + "- `"@ + sections.last().0@ + "`: "@ + decimal(
            sections.last().1 as nat,
        ) + " 개\n"@
    }
}

/// The whole document.
pub open spec fn contract_text(r: Report) -> Seq<char> {
    head_text(r) + files_text(r) + model_text(r) + coords_text(r) + search_keys_text(r)
        + meta_keys_text(r) + link_rules_text(r) + determinism_text(r) + measured_text(r)
        + recovered_text(r) + "\n## 9. 섹션 목록\n\n"@ + section_lines(r.sections@) + "\n"@
}

fn recovered_part(r: &Report) -> (s: String)
    ensures
        s@ == recovered_text(*r),
{
    let mut out = String::new();
    if r.stats.recovered_basename > 0 || r.stats.ext_swap > 0 {
        push_str(&mut out, "\n### 자동 복구한 링크\n\n");
        push_str(
            &mut out,
            "원문이 가리키는 경로가 실제로 없어서, 저장소 전체에서 이름이 유일한 파일로 되돌린 링크들이다(원본 `.md` 는 그대로 두었다).\n\n",
        );
        let lines = &r.stats.recovered;
        let m = if lines.len() < 64 {
            lines.len()
        } else {
            64
        };
        let ghost base = out@;
        let mut k: usize = 0;
        assert(lines@.take(0) =~= Seq::<String>::empty());
        while k < m
            invariant
                k <= m <= lines@.len(),
                out@ == base + recovered_lines(lines@.take(k as int)),
            decreases m - k,
        {
            push_str(&mut out, "- `");
            push_str(&mut out, lines[k].as_str());
            push_str(&mut out, "`\n");
            assert(lines@.take(k + 1).drop_last() =~= lines@.take(k as int));
            assert(out@ =~= base + recovered_lines(lines@.take(k + 1)));
            k += 1;
        }
    }
    out
}

fn section_part(sections: &Vec<(String, usize)>) -> (s: String)
    ensures
        s@ == section_lines(sections@),
{
    let mut out = String::new();
    let mut k: usize = 0;
    assert(sections@.take(0) =~= Seq::<(String, usize)>::empty());
    while k < sections.len()
        invariant
            k <= sections@.len(),
            out@ == section_lines(sections@.take(k as int)),
        decreases sections.len() - k,
    {
        push_str(&mut out, "- `");
        push_str(&mut out, sections[k].0.as_str());
        push_str(&mut out, "`: ");
        push_decimal(&mut out, sections[k].1);
        push_str(&mut out, " 개\n");
        assert(sections@.take(k + 1).drop_last() =~= sections@.take(k as int));
        assert(out@ =~= section_lines(sections@.take(k + 1)));
        k += 1;
    }
    assert(sections@.take(sections@.len() as int) =~= sections@);
    out
}

/// The text of `CONTRACT.md` for a run.
pub fn render(r: &Report) -> (s: String)
    requires
        r.notes_scanned + r.section_count <= usize::MAX,
    ensures
        s@ == contract_text(*r),
{
    let mut out = head_part(r);
    push_str(&mut out, files_part(r).as_str());
    push_str(&mut out, model_part(r).as_str());
    push_str(&mut out, coords_part(r).as_str());
    push_str(&mut out, search_keys_part(r).as_str());
    push_str(&mut out, meta_keys_part(r).as_str());
    push_str(&mut out, link_rules_part(r).as_str());
    push_str(&mut out, determinism_part(r).as_str());
    push_str(&mut out, measured_part(r).as_str());
    push_str(&mut out, recovered_part(r).as_str());
    push_str(&mut out, "\n## 9. 섹션 목록\n\n");
    push_str(&mut out, section_part(&r.sections).as_str());
    push_str(&mut out, "\n");
    assert(out@ =~= contract_text(*r));
    out
}

} // verus!
